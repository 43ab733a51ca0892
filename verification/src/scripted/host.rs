//! Scripted Ark driving a real `HostSide`. A script mixes calls the driver makes
//! into the host with frames the scripted Ark puts in front of it. The frames queue
//! up until a call reads them, and are handed over one at a time, moving the script
//! forward as the host reads. The scripted Ark parses everything the host writes,
//! answering hellos and opening requests with real keys.
//!
//! The model predicts the result of every call from the frames it consumed,
//! tracking the session the host should have. The first divergence ends the run.

use darkbio_crypto::xdsa::{PublicKey as VerifyingKey, SecretKey as SigningKey};
use darkbio_crypto::xhpke::{
    PublicKey as EncryptionKey, Receiver as OpeningContext, SecretKey as DecryptionKey,
    Sender as SealingContext,
};
use vstd::prelude::*;

use super::{
    cloud_attestation, frame, read_tag, self_attestation, tag, tamper, try_frame, unframe,
    Divergence, Outbox, MAX_STEPS, TOKEN_OVERHEAD,
};
use crate::bytes::{copy, replace};
use crate::side_ark::Attestation;
use crate::side_host;
use crate::side_host::{HostSide, Progress, MAX_STALE_FRAMES};
use crate::transport;
use crate::transport::cobs;
use crate::transport::envelope;
use crate::transport::framing;
use crate::transport::handshake;
use crate::transport::handshake::{Answerer, HelloKeys, Pending};
use crate::transport::keys;
use crate::transport::sealing;
use crate::transport::session::Session;
use crate::transport::{Error, MAX_MESSAGE_SIZE};

verus! {

/// One step of a script, either a call the driver makes into the host or a frame
/// the scripted Ark puts in front of it. Frames needing a session or a HostHello
/// the Ark does not have degrade into junk, so any sequence of steps is a valid
/// script.
#[derive(Clone, Debug, PartialEq, Eq)]
pub enum Step {
    /// The host runs a handshake.
    Handshake,
    /// The host sends a request tagged by the byte.
    Send(u8),
    /// The host reads the next message.
    Recv,
    /// A valid ArkHello answering the latest HostHello. Junk if there was none.
    Hello,
    /// An ArkHello sealed to a key the host never had. Junk if there was no hello
    /// to bind it to.
    HelloStale,
    /// An ArkHello for the latest HostHello with a flipped ciphertext byte. Junk if
    /// there was no hello.
    HelloTampered,
    /// An ArkHello for the latest HostHello bound to another host's keys, as one
    /// substituted by a man in the middle would be. Junk if there was no hello.
    HelloBadAuth,
    /// An ArkHello for the latest HostHello signed by a key other than the Ark's
    /// identity. Junk if there was no hello.
    HelloBadSigner,
    /// An ArkHello for the latest HostHello whose sealed payload is not an ArkHello
    /// at all. Junk if there was no hello.
    HelloBadPayload,
    /// An ArkHello for the latest HostHello carrying an encryption key that fails
    /// validation. Junk if there was no hello.
    HelloBadKey,
    /// An ArkHello for the latest HostHello with an encapsulated key of the wrong
    /// size. Junk if there was no hello.
    HelloBadEncap,
    /// An ArkHello for the latest HostHello carrying a well formed attestation of
    /// the wrong shape, a cloud one. Junk if there was no hello.
    HelloBadAttest,
    /// A sealed reply tagged by the byte. Junk without a session.
    Reply(u8),
    /// The last sealed reply, repeated. Nothing if none was sent yet.
    ReplyReplay,
    /// A sealed reply with a flipped ciphertext byte. Junk without a session.
    ReplyTampered,
    /// A sealed packet that does not stand for a number. Junk without a session.
    Garbage,
    /// The empty frame signaling a dropped session.
    Dropped,
    /// The bytes encoded into a frame, decodable but meaningless.
    Junk(Vec<u8>),
    /// A frame that does not decode.
    Undecodable,
    /// The read fails.
    Yield,
    /// The host's writes fail from here on, as on a transport that died.
    Break,
    /// The host's writes work again.
    Heal,
    /// Caps what a single read hands the host at the byte count, so frames arrive
    /// in pieces. Zero lifts the cap.
    Chunk(u8),
}

impl Step {
    /// Whether the step is a call into the host rather than an Ark frame.
    pub open spec fn calls(self) -> bool {
        self is Handshake || self is Send || self is Recv
    }

    /// Whether the step is a call into the host rather than an Ark frame.
    fn is_call(&self) -> (is: bool)
        ensures
            is == self.calls(),
    {
        matches!(self, Step::Handshake | Step::Send(_) | Step::Recv)
    }
}

/// Error kinds the model distinguishes in the host's results.
#[derive(Clone, Copy, Debug, PartialEq, Eq, Structural)]
pub enum Kind {
    PacketDecoding,
    FrameDecoding,
    Send,
    Recv,
    Terminated,
    SessionReset,
    InvalidAttestation,
    Handshake,
    Encryption,
}

/// Counts of what a run observed, for scenarios to assert on.
#[derive(Clone, Copy, Debug, PartialEq, Eq, Structural)]
pub struct Summary {
    pub established: bool,  // Whether the host ended up with a session
    pub handshakes: usize,  // Handshakes that succeeded
    pub messages: usize,  // Messages the host read
    pub resets: usize,  // Session resets the host surfaced
    pub failures: usize,  // Other errors the host surfaced
}

impl Default for Summary {
    fn default() -> (summary: Summary)
        ensures
            summary == (Summary {
                established: false,
                handshakes: 0,
                messages: 0,
                resets: 0,
                failures: 0,
            }),
    {
        Summary { established: false, handshakes: 0, messages: 0, resets: 0, failures: 0 }
    }
}

/// What is wrong with an ArkHello crafted to be refused, in the order the host
/// finds them. A stale one is not refused but skipped, answering no hello of the
/// host's.
#[derive(Clone, Copy, Debug, PartialEq, Eq, Structural)]
pub enum Flaw {
    Intact,
    Stale,
    Tampered,
    Auth,
    Signer,
    Payload,
    Key,
    Encap,
    Attest,
}

/// Flaw of the ArkHello that a step puts in front of the host, if it does.
pub open spec fn flaw_of(step: Step) -> Option<Flaw> {
    match step {
        Step::Hello => Some(Flaw::Intact),
        Step::HelloStale => Some(Flaw::Stale),
        Step::HelloTampered => Some(Flaw::Tampered),
        Step::HelloBadAuth => Some(Flaw::Auth),
        Step::HelloBadSigner => Some(Flaw::Signer),
        Step::HelloBadPayload => Some(Flaw::Payload),
        Step::HelloBadKey => Some(Flaw::Key),
        Step::HelloBadEncap => Some(Flaw::Encap),
        Step::HelloBadAttest => Some(Flaw::Attest),
        _ => None,
    }
}

/// A frame put in front of the host, as the model sees it.
#[derive(Clone, Copy, Debug, PartialEq, Eq, Structural)]
pub enum Frame {
    /// An ArkHello answering the hello of the generation, flawed or not.
    ArkHello { generation: u64, flaw: Flaw },
    /// A packet sealed in the Ark's session with the sequence number.
    Sealed { session: u64, seq: u64, tag: u8, garbage: bool },
    /// The empty frame.
    Dropped,
    /// A decodable frame meaning nothing.
    Junk,
    /// A frame that does not decode.
    Undecodable,
}

/// Call in progress on the host, consuming the frames read.
#[derive(Clone, Copy, Debug, PartialEq, Eq, Structural)]
pub enum Call {
    Idle,
    Handshake { generation: u64, stale: usize },
    Recv,
}

/// Result of a host call: done, a message of the number, or an error.
#[derive(Clone, Copy, Debug, PartialEq, Eq, Structural)]
pub enum Expect {
    Done,
    Message(u64),
    Failed(Kind),
}

/// What the host should have written.
#[derive(Clone, Copy, Debug, PartialEq, Eq, Structural)]
pub enum Wrote {
    /// A HostHello.
    Hello,
    /// A HostAck answering the hello of the generation.
    Ack(u64),
    /// A request of the number.
    Request(u64),
}

/// The model: what the script has put in front of the host, what the call in
/// progress should come to, and what both sides should know of their session.
pub struct Model {
    pub broken: bool,  // Whether the host's writes fail
    pub queue: Seq<Frame>,  // Frames produced, not yet read by the host
    pub call: Call,  // Call the frames read feed into
    pub expect: Option<Expect>,  // Its predicted result once settled
    pub host_session: Option<u64>,  // Generation of the host's live session
    pub host_seq: nat,  // Packets the host opened in it
    pub writes: Seq<Wrote>,  // What the host should have written since the last look
    pub generation: nat,  // Hellos seen
    pub session: Option<(u64, nat)>,  // Session on the Ark's side, with its position
    pub last_reply: Option<Frame>,  // Last sealed reply
    pub handshakes: nat,  // Handshakes that succeeded
    pub messages: nat,  // Messages the host read
    pub resets: nat,  // Session resets the host surfaced
    pub failures: nat,  // Other errors the host surfaced
}

/// The model along with the position in the script.
pub struct Run {
    pub model: Model,
    pub next: int,
}

impl Model {
    /// The model before the first step.
    pub open spec fn start() -> Model {
        Model {
            broken: false,
            queue: Seq::empty(),
            call: Call::Idle,
            expect: None,
            host_session: None,
            host_seq: 0,
            writes: Seq::empty(),
            generation: 0,
            session: None,
            last_reply: None,
            handshakes: 0,
            messages: 0,
            resets: 0,
            failures: 0,
        }
    }

    /// The Ark sees something the host wrote: a hello starts another generation,
    /// an ack opens the session of the generation it answers.
    pub open spec fn seeing(self, wrote: Wrote) -> Model {
        match wrote {
            Wrote::Hello => Model { generation: self.generation + 1, ..self },
            Wrote::Ack(generation) => Model { session: Some((generation, 0)), ..self },
            Wrote::Request(_) => self,
        }
    }

    /// The Ark sees the first of what the host wrote.
    pub open spec fn seeing_all(self, writes: Seq<Wrote>, count: int) -> Model
        decreases count,
    {
        if count <= 0 {
            Model { writes: Seq::empty(), ..self }
        } else {
            self.seeing_all(writes, count - 1).seeing(writes[count - 1])
        }
    }

    /// The Ark sees everything the host wrote.
    #[verifier::opaque]
    pub open spec fn ingested(self) -> Model {
        self.seeing_all(self.writes, self.writes.len() as int)
    }

    /// A frame is put in front of the host.
    pub open spec fn queued(self, frame: Frame) -> Model {
        Model { queue: self.queue.push(frame), ..self }
    }

    /// The Ark answers the latest hello. A stale answer is for nobody, every other
    /// one for the latest generation.
    pub open spec fn greeting(self, flaw: Flaw) -> Model {
        if self.generation == 0 {
            self.queued(Frame::Junk)
        } else if flaw == Flaw::Stale {
            self.queued(Frame::ArkHello { generation: 0, flaw })
        } else {
            self.queued(Frame::ArkHello { generation: self.generation as u64, flaw })
        }
    }

    /// The Ark seals a reply in its session.
    pub open spec fn replying(self, tag: Option<u8>) -> Model {
        match self.session {
            Some((session, seq)) => {
                let sealed = Frame::Sealed {
                    session,
                    seq: seq as u64,
                    tag: tag.unwrap_or(0),
                    garbage: tag is None,
                };
                Model {
                    session: Some((session, seq + 1)),
                    last_reply: Some(sealed),
                    ..self
                }.queued(sealed)
            },
            None => self.queued(Frame::Junk),
        }
    }

    /// The Ark produces the frame of a step.
    pub open spec fn producing(self, step: Step) -> Model {
        match step {
            Step::Reply(tag) => self.replying(Some(tag)),
            Step::ReplyReplay => match self.last_reply {
                Some(sealed) => self.queued(sealed),
                None => self,
            },
            Step::ReplyTampered => match self.session {
                Some((session, seq)) => Model {
                    session: Some((session, seq + 1)),
                    ..self
                }.queued(Frame::Junk),
                None => self.queued(Frame::Junk),
            },
            Step::Garbage => self.replying(None),
            Step::Dropped => self.queued(Frame::Dropped),
            Step::Junk(_) => self.queued(Frame::Junk),
            Step::Undecodable => self.queued(Frame::Undecodable),
            Step::Break => Model { broken: true, ..self },
            Step::Heal => Model { broken: false, ..self },
            _ => match flaw_of(step) {
                Some(flaw) => self.greeting(flaw),
                None => self,
            },
        }
    }

    /// The script executes an Ark step. What the host wrote is taken in first.
    #[verifier::opaque]
    pub open spec fn executed(self, step: Step) -> Model {
        self.ingested().producing(step)
    }

    /// The call in progress comes to a result.
    pub open spec fn settled(self, expect: Expect) -> Model {
        Model { expect: Some(expect), call: Call::Idle, ..self }
    }

    /// A handshake reads a frame. The ArkHello of its generation decides it, an
    /// undecodable frame fails it, and anything else is skipped up to a bound.
    pub open spec fn greeted(self, frame: Frame, generation: u64, stale: usize) -> Model {
        match frame {
            Frame::Undecodable => self.settled(Expect::Failed(Kind::FrameDecoding)),
            Frame::ArkHello { generation: answered, flaw } if answered == generation => {
                match flaw {
                    Flaw::Intact => if self.broken {
                        self.settled(Expect::Failed(Kind::Send))
                    } else {
                        Model {
                            host_session: Some(generation),
                            host_seq: 0,
                            writes: self.writes.push(Wrote::Ack(generation)),
                            ..self
                        }.settled(Expect::Done)
                    },
                    Flaw::Attest => self.settled(Expect::Failed(Kind::InvalidAttestation)),
                    _ => self.settled(Expect::Failed(Kind::Handshake)),
                }
            },
            _ => if stale < MAX_STALE_FRAMES {
                Model {
                    call: Call::Handshake { generation, stale: (stale + 1) as usize },
                    ..self
                }
            } else {
                self.settled(Expect::Failed(Kind::Handshake))
            },
        }
    }

    /// A receive reads a frame. What the session cannot open ends it.
    pub open spec fn received(self, frame: Frame) -> Model {
        let ended = Model { host_session: None, ..self };
        match (self.host_session, frame) {
            (_, Frame::Dropped) => ended.settled(Expect::Failed(Kind::SessionReset)),
            (_, Frame::Undecodable) => ended.settled(Expect::Failed(Kind::FrameDecoding)),
            (Some(id), Frame::Sealed { session, seq, tag, garbage }) if session == id && seq
                == self.host_seq => Model { host_seq: self.host_seq + 1, ..self }.settled(
                if garbage {
                    Expect::Failed(Kind::PacketDecoding)
                } else {
                    Expect::Message(tag as u64)
                },
            ),
            _ => ended.settled(Expect::Failed(Kind::Encryption)),
        }
    }

    /// The call in progress reads a frame.
    #[verifier::opaque]
    pub open spec fn consumed(self, frame: Frame) -> Model {
        match self.call {
            Call::Handshake { generation, stale } => self.greeted(frame, generation, stale),
            Call::Recv => self.received(frame),
            Call::Idle => self,
        }
    }

    /// A read fails, which ends the call in progress with the error. A session does
    /// not survive a failed receive.
    pub open spec fn interrupted(self, kind: Kind) -> Model {
        match self.call {
            Call::Handshake { .. } => self.settled(Expect::Failed(kind)),
            Call::Recv => Model { host_session: None, ..self }.settled(Expect::Failed(kind)),
            Call::Idle => self,
        }
    }

    /// The driver starts a handshake. The old session ends.
    pub open spec fn shaking(self) -> Model {
        Model {
            host_session: None,
            call: Call::Handshake { generation: (self.generation + 1) as u64, stale: 0 },
            writes: self.writes.push(Wrote::Hello),
            ..self
        }
    }

    /// The driver counts the result of a call and takes in what the host wrote.
    #[verifier::opaque]
    pub open spec fn counted(self, handshake: bool) -> Model {
        let model = Model { expect: None, call: Call::Idle, ..self };
        match self.expect {
            Some(Expect::Failed(kind)) => if !handshake && kind == Kind::SessionReset {
                Model { resets: self.resets + 1, ..model }.ingested()
            } else {
                Model { failures: self.failures + 1, ..model }.ingested()
            },
            _ => if handshake {
                Model { handshakes: self.handshakes + 1, ..model }.ingested()
            } else {
                Model { messages: self.messages + 1, ..model }.ingested()
            },
        }
    }

    /// The driver sends a request. It goes out in a session on a working transport.
    /// A failed send takes the session down.
    #[verifier::opaque]
    pub open spec fn sending(self, id: u64) -> Model {
        if self.host_session is None {
            self.ingested()
        } else if self.broken {
            Model { host_session: None, ..self }.ingested()
        } else {
            Model { writes: self.writes.push(Wrote::Request(id)), ..self }.ingested()
        }
    }
}

/// Number of steps that a script is run for.
pub open spec fn run_length(steps: Seq<Step>) -> int {
    if steps.len() < MAX_STEPS {
        steps.len() as int
    } else {
        MAX_STEPS as int
    }
}

/// Steps of a script that are still to be run.
pub open spec fn remaining(steps: Seq<Step>, next: int) -> nat {
    if next < run_length(steps) {
        (run_length(steps) - next) as nat
    } else {
        0
    }
}

/// A call reads frames until one settles it. The script moves forward while no
/// frame is queued. A call, a yield or its end fails the read.
pub open spec fn reading(model: Model, steps: Seq<Step>, next: int) -> Run
    decreases remaining(steps, next), model.queue.len(),
{
    if model.call == Call::Idle {
        Run { model, next }
    } else if model.queue.len() > 0 {
        let left = model.queue.skip(1);
        let model = Model { queue: left, ..model.consumed(model.queue[0]) };
        reading(model, steps, next)
    } else if next >= run_length(steps) {
        Run { model: model.interrupted(Kind::Terminated), next }
    } else if steps[next].calls() {
        Run { model: model.interrupted(Kind::Recv), next }
    } else if steps[next] is Yield {
        Run { model: model.interrupted(Kind::Recv), next: next + 1 }
    } else {
        reading(model.executed(steps[next]), steps, next + 1)
    }
}

/// The driver makes a call into the host, the script standing behind it.
pub open spec fn called(model: Model, steps: Seq<Step>, next: int, step: Step) -> Run {
    match step {
        Step::Handshake => if model.broken {
            Run {
                model: Model { host_session: None, failures: model.failures + 1, ..model },
                next,
            }
        } else {
            let read = reading(model.shaking(), steps, next);
            Run { model: read.model.counted(true), next: read.next }
        },
        Step::Send(id) => Run { model: model.sending(id as u64), next },
        _ => {
            let read = reading(Model { call: Call::Recv, ..model }, steps, next);
            Run { model: read.model.counted(false), next: read.next }
        },
    }
}

/// Where a script leaves the model once it ran out, from a position in it.
pub open spec fn ran(model: Model, steps: Seq<Step>, next: int) -> Model
    decreases remaining(steps, next),
{
    if next >= run_length(steps) {
        model
    } else if steps[next].calls() {
        let after = called(model, steps, next + 1, steps[next]);
        if after.next > next {
            ran(after.model, steps, after.next)
        } else {
            after.model
        }
    } else if steps[next] is Yield {
        ran(model, steps, next + 1)
    } else {
        ran(model.executed(steps[next]), steps, next + 1)
    }
}

/// Whether a summary tells what the model says of a script.
pub open spec fn summarizes(summary: Summary, steps: Seq<Step>) -> bool {
    let model = ran(Model::start(), steps, 0).ingested();
    &&& summary.established == (model.host_session is Some)
    &&& summary.handshakes == model.handshakes
    &&& summary.messages == model.messages
    &&& summary.resets == model.resets
    &&& summary.failures == model.failures
}

/// Taking in what the host wrote leaves everything but the Ark's own view of it.
proof fn lemma_seeing(model: Model, writes: Seq<Wrote>, count: int)
    requires
        0 <= count <= writes.len(),
    ensures
        ({
            let seen = model.seeing_all(writes, count);
            &&& seen.writes == Seq::<Wrote>::empty()
            &&& seen == (Model {
                generation: seen.generation,
                session: seen.session,
                writes: Seq::empty(),
                ..model
            })
        }),
    decreases count,
{
    if count > 0 {
        lemma_seeing(model, writes, count - 1);
    }
}

/// A call that reads behind another step comes to the same.
proof fn lemma_reading_behind(model: Model, steps: Seq<Step>, size: u8, next: int)
    requires
        steps.len() < MAX_STEPS,
        next >= 0,
    ensures
        ({
            let pieced = reading(model, seq![Step::Chunk(size)] + steps, next + 1);
            let whole = reading(model, steps, next);
            pieced.model == whole.model && pieced.next == whole.next + 1
        }),
    decreases remaining(steps, next), model.queue.len(),
{
    let longer = seq![Step::Chunk(size)] + steps;
    if model.call == Call::Idle {
    } else if model.queue.len() > 0 {
        let left = model.queue.skip(1);
        lemma_reading_behind(
            Model { queue: left, ..model.consumed(model.queue[0]) },
            steps,
            size,
            next,
        );
    } else if next < run_length(steps) {
        assert(longer[next + 1] == steps[next]);
        if !steps[next].calls() && !(steps[next] is Yield) {
            lemma_reading_behind(model.executed(steps[next]), steps, size, next + 1);
        }
    }
}

/// A script comes to the same behind another step.
proof fn lemma_ran_behind(model: Model, steps: Seq<Step>, size: u8, next: int)
    requires
        steps.len() < MAX_STEPS,
        next >= 0,
    ensures
        ran(model, seq![Step::Chunk(size)] + steps, next + 1) == ran(model, steps, next),
    decreases remaining(steps, next),
{
    let longer = seq![Step::Chunk(size)] + steps;
    if next < run_length(steps) {
        assert(longer[next + 1] == steps[next]);
        if steps[next].calls() {
            lemma_reading_behind(model.shaking(), steps, size, next + 1);
            lemma_reading_behind(Model { call: Call::Recv, ..model }, steps, size, next + 1);
            let after = called(model, steps, next + 1, steps[next]);
            if after.next > next {
                lemma_ran_behind(after.model, steps, size, after.next);
            }
        } else if steps[next] is Yield {
            lemma_ran_behind(model, steps, size, next + 1);
        } else {
            lemma_ran_behind(model.executed(steps[next]), steps, size, next + 1);
        }
    }
}

/// The size of the pieces in which frames arrive never changes what a run observes.
pub proof fn law_piece_size(steps: Seq<Step>, size: u8, pieced: Summary, whole: Summary)
    requires
        steps.len() < MAX_STEPS,
        summarizes(pieced, seq![Step::Chunk(size)] + steps),
        summarizes(whole, steps),
    ensures
        pieced == whole,
{
    let start = Model::start();
    let longer = seq![Step::Chunk(size)] + steps;
    assert(longer[0] == Step::Chunk(size));
    assert(start.executed(Step::Chunk(size)) == start) by {
        reveal(Model::executed);
        reveal(Model::ingested);
    }
    lemma_ran_behind(start, steps, size, 0);
    assert(ran(start, longer, 0) == ran(start, longer, 1));
}

/// Whether the bytes of a step fit a frame.
pub open spec fn fits(step: Step) -> bool {
    step matches Step::Junk(bytes) ==> cobs::encoded_bound(bytes@.len() as int)
        <= transport::MAX_FRAME_SIZE
}

/// Whether all the junk of a script fits frames.
#[verifier::opaque]
pub open spec fn junk_fits(steps: Seq<Step>) -> bool {
    forall|i: int| 0 <= i < run_length(steps) ==> fits(#[trigger] steps[i])
}

/// Whether a handshake takes a frame for what it is without opening anything: the empty
/// frame, and one that does not decode.
pub open spec fn plain(frame: Frame) -> bool {
    frame == Frame::Dropped || frame == Frame::Undecodable
}

/// Whether a call that reads on comes to its result without a packet being opened: a
/// handshake reads plain frames only, and the frames of all steps on the way fit.
pub open spec fn clear(model: Model, steps: Seq<Step>, next: int) -> bool
    decreases remaining(steps, next), model.queue.len(),
{
    if model.call == Call::Idle {
        true
    } else if model.queue.len() > 0 {
        let left = model.queue.skip(1);
        &&& model.call is Handshake ==> plain(model.queue[0])
        &&& clear(Model { queue: left, ..model.consumed(model.queue[0]) }, steps, next)
    } else if next >= run_length(steps) || steps[next].calls() || steps[next] is Yield {
        true
    } else {
        fits(steps[next]) && clear(model.executed(steps[next]), steps, next + 1)
    }
}

/// Whether a call comes to its result without a packet being opened, the script standing
/// behind it.
pub open spec fn opens_nothing(model: Model, steps: Seq<Step>, next: int, step: Step) -> bool {
    match step {
        Step::Handshake => model.broken || clear(model.shaking(), steps, next),
        Step::Send(_) => true,
        _ => clear(Model { call: Call::Recv, ..model }, steps, next),
    }
}

/// Whether a script comes to its end from a position without any packet being opened, by
/// the model: every handshake is decided by the transport and by plain frames, and the
/// frames of its steps fit.
pub open spec fn undecided_from(model: Model, steps: Seq<Step>, next: int) -> bool
    decreases remaining(steps, next),
{
    if next >= run_length(steps) {
        true
    } else if steps[next].calls() {
        let after = called(model, steps, next + 1, steps[next]);
        &&& opens_nothing(model, steps, next + 1, steps[next])
        &&& after.next > next ==> undecided_from(after.model, steps, after.next)
    } else if steps[next] is Yield {
        undecided_from(model, steps, next + 1)
    } else {
        fits(steps[next]) && undecided_from(model.executed(steps[next]), steps, next + 1)
    }
}

/// Whether no ArkHello and no sealed message is ever opened in a script, by the model:
/// what it comes to rests on no key.
pub open spec fn undecided(steps: Seq<Step>) -> bool {
    undecided_from(Model::start(), steps, 0)
}

/// Whether everything that the host was to write is a hello.
pub open spec fn hellos(writes: Seq<Wrote>) -> bool {
    forall|i: int| 0 <= i < writes.len() ==> #[trigger] writes[i] == Wrote::Hello
}

/// Taking in hellos counts them and changes nothing else.
proof fn lemma_hellos(model: Model, writes: Seq<Wrote>, count: int)
    requires
        hellos(writes),
        0 <= count <= writes.len(),
    ensures
        model.seeing_all(writes, count) == (Model {
            generation: model.generation + count as nat,
            writes: Seq::empty(),
            ..model
        }),
    decreases count,
{
    if count > 0 {
        lemma_hellos(model, writes, count - 1);
        assert(writes[count - 1] == Wrote::Hello);
    }
}

/// A step without a session leaves the Ark and the host without one.
proof fn lemma_smooth_step(model: Model, step: Step)
    requires
        hellos(model.writes),
        model.session is None,
    ensures
        model.ingested() == (Model {
            generation: model.generation + model.writes.len(),
            writes: Seq::empty(),
            ..model
        }),
        ({
            let after = model.executed(step);
            &&& after.session is None
            &&& after.host_session == model.host_session
            &&& after.host_seq == model.host_seq
            &&& after.call == model.call
            &&& after.expect == model.expect
            &&& after.writes == Seq::<Wrote>::empty()
            &&& after.generation == model.generation + model.writes.len()
            &&& after.handshakes == model.handshakes
            &&& after.messages == model.messages
            &&& after.resets == model.resets
            &&& after.failures == model.failures
        }),
{
    reveal(Model::ingested);
    reveal(Model::executed);
    lemma_hellos(model, model.writes, model.writes.len() as int);
}

/// A script in which the host opens no packet leaves it without a session, no handshake
/// having succeeded and no message having been read.
pub proof fn law_undecided_stays_idle(steps: Seq<Step>)
    requires
        undecided(steps),
    ensures
        ({
            let model = ran(Model::start(), steps, 0).ingested();
            &&& model.host_session is None
            &&& model.session is None
            &&& model.handshakes == 0
            &&& model.messages == 0
        }),
{
    lemma_undecided(Model::start(), steps, 0);
    lemma_smooth_step(ran(Model::start(), steps, 0), Step::Yield);
}

/// Whether a model has no session on either side, only hellos having been written, and
/// nothing to show for it.
spec fn alone(model: Model) -> bool {
    &&& model.host_session is None
    &&& model.session is None
    &&& hellos(model.writes)
    &&& model.handshakes == 0
    &&& model.messages == 0
}

/// A call that opens no packet fails, and leaves nobody with a session.
proof fn lemma_clear(model: Model, steps: Seq<Step>, next: int)
    requires
        alone(model),
        model.call != Call::Idle,
        clear(model, steps, next),
    ensures
        alone(reading(model, steps, next).model),
        reading(model, steps, next).model.expect matches Some(Expect::Failed(_)),
    decreases remaining(steps, next), model.queue.len(),
{
    if model.queue.len() > 0 {
        let after = Model { queue: model.queue.skip(1), ..model.consumed(model.queue[0]) };
        reveal(Model::consumed);
        reveal_with_fuel(reading, 2);
        if after.call != Call::Idle {
            lemma_clear(after, steps, next);
        }
    } else if next < run_length(steps) && !steps[next].calls() && !(steps[next] is Yield) {
        lemma_smooth_step(model, steps[next]);
        lemma_clear(model.executed(steps[next]), steps, next + 1);
    }
}

/// Counting a failed call leaves nobody with a session.
proof fn lemma_counted(model: Model, handshake: bool)
    requires
        alone(model),
        model.expect matches Some(Expect::Failed(_)),
    ensures
        alone(model.counted(handshake)),
{
    reveal(Model::counted);
    let over = Model { expect: None, call: Call::Idle, ..model };
    lemma_smooth_step(Model { resets: model.resets + 1, ..over }, Step::Yield);
    lemma_smooth_step(Model { failures: model.failures + 1, ..over }, Step::Yield);
}

/// A script in which the host opens no packet leaves nobody with a session.
proof fn lemma_undecided(model: Model, steps: Seq<Step>, next: int)
    requires
        alone(model),
        undecided_from(model, steps, next),
    ensures
        alone(ran(model, steps, next)),
    decreases remaining(steps, next),
{
    if next < run_length(steps) {
        let step = steps[next];
        if step.calls() {
            let after = called(model, steps, next + 1, step);
            match step {
                Step::Handshake => if !model.broken {
                    lemma_clear(model.shaking(), steps, next + 1);
                    lemma_counted(reading(model.shaking(), steps, next + 1).model, true);
                },
                Step::Send(id) => {
                    reveal(Model::sending);
                    lemma_smooth_step(model, Step::Yield);
                },
                _ => {
                    let reads = Model { call: Call::Recv, ..model };
                    lemma_clear(reads, steps, next + 1);
                    lemma_counted(reading(reads, steps, next + 1).model, false);
                },
            }
            if after.next > next {
                lemma_undecided(after.model, steps, after.next);
            }
        } else if step is Yield {
            lemma_undecided(model, steps, next + 1);
        } else {
            lemma_smooth_step(model, step);
            lemma_undecided(model.executed(step), steps, next + 1);
        }
    }
}

/// The frames that are not empty.
pub open spec fn filled(frames: Seq<Seq<u8>>) -> Seq<Seq<u8>>
    decreases frames.len(),
{
    if frames.len() == 0 {
        Seq::empty()
    } else if frames.last().len() > 0 {
        filled(frames.drop_last()).push(frames.last())
    } else {
        filled(frames.drop_last())
    }
}

/// The first frames that are not empty are those among the first frames.
proof fn lemma_filled(frames: Seq<Seq<u8>>, count: int)
    requires
        0 <= count <= frames.len(),
    ensures
        filled(frames.take(count)).len() <= filled(frames).len(),
        filled(frames.take(count)) == filled(frames).take(
            filled(frames.take(count)).len() as int,
        ),
    decreases frames.len(),
{
    if count == frames.len() {
        assert(frames.take(count) =~= frames);
        assert(filled(frames).take(filled(frames).len() as int) =~= filled(frames));
    } else {
        let front = frames.drop_last();
        assert(front.take(count) =~= frames.take(count));
        lemma_filled(front, count);
        let size = filled(frames.take(count)).len() as int;
        assert(filled(frames).take(size) =~= filled(front).take(size));
    }
}

/// The frames of two runs that are not empty are those of the first and the second.
proof fn lemma_filled_both(front: Seq<Seq<u8>>, back: Seq<Seq<u8>>)
    ensures
        filled(front + back) == filled(front) + filled(back),
    decreases back.len(),
{
    if back.len() == 0 {
        assert(front + back =~= front);
        assert(filled(front) + filled(back) =~= filled(front));
    } else {
        lemma_filled_both(front, back.drop_last());
        assert((front + back).drop_last() =~= front + back.drop_last());
        assert(filled(front + back) =~= filled(front) + filled(back));
    }
}

/// Counts one more, or fails once the counter is exhausted.
fn bump(count: u64) -> (next: Result<u64, Divergence>)
    ensures
        match next {
            Ok(next) => next == count + 1,
            Err(divergence) => divergence == Divergence::Setup && count == u64::MAX,
        },
{
    if count == u64::MAX {
        Err(Divergence::Setup)
    } else {
        Ok(count + 1)
    }
}

/// Counts one more, or fails once the counter is exhausted.
fn bump_total(count: usize) -> (next: Result<usize, Divergence>)
    ensures
        match next {
            Ok(next) => next == count + 1,
            Err(divergence) => divergence == Divergence::Setup && count == usize::MAX,
        },
{
    if count == usize::MAX {
        Err(Divergence::Setup)
    } else {
        Ok(count + 1)
    }
}

/// Whether a frame holds a hello.
spec fn legible(frame: Seq<u8>) -> bool {
    cobs::cobs_decoded(frame) matches Ok(packet) && handshake::hello_keys(packet) is Some
}

/// ArkHello handed out, awaiting the host's ack.
struct Outstanding {
    generation: u64,
    pending: Pending,
}

/// Session on the scripted Ark's side.
struct ArkSession {
    id: u64,  // Generation of the hello it answered
    sender: SealingContext,
    receiver: OpeningContext,
    seq: u64,  // Packets sealed so far
}

impl ArkSession {
    /// Packet that the next message makes.
    spec fn next_packet(self, message: Seq<u8>) -> Seq<u8> {
        sealing::packet_of(
            sealing::sender_context(self.sender),
            sealing::sender_sequence(self.sender),
            message,
        )
    }

    /// Whether another session is this one after sealing one more message.
    spec fn advanced(self, next: ArkSession) -> bool {
        &&& next.id == self.id
        &&& next.receiver == self.receiver
        &&& next.seq == self.seq + 1
        &&& sealing::sender_context(next.sender) == sealing::sender_context(self.sender)
        &&& sealing::sender_sequence(next.sender) == sealing::sender_sequence(self.sender) + 1
    }
}

/// Bytes that stand for a frame put in front of the host.
spec fn fitting(frame: Frame, packet: Seq<u8>) -> bool {
    match frame {
        Frame::Dropped => packet == seq![0u8],
        Frame::Undecodable => packet == seq![0xffu8, 0x01u8, 0x00u8],
        _ => super::enclosed(packet),
    }
}

/// What a frame makes of a call without a session, read by a handshake only if it is
/// plain.
spec fn steers(call: Call, frame: Frame, next: Call, expect: Option<Expect>) -> bool {
    match call {
        Call::Handshake { generation, stale } => {
            &&& plain(frame)
            &&& if frame == Frame::Undecodable {
                &&& next == Call::Idle
                &&& expect == Some(Expect::Failed(Kind::FrameDecoding))
            } else if stale < MAX_STALE_FRAMES {
                next == Call::Handshake { generation, stale: (stale + 1) as usize }
            } else {
                next == Call::Idle && expect == Some(Expect::Failed(Kind::Handshake))
            }
        },
        _ => {
            &&& next == Call::Idle
            &&& expect == Some(
                Expect::Failed(
                    match frame {
                        Frame::Dropped => Kind::SessionReset,
                        Frame::Undecodable => Kind::FrameDecoding,
                        _ => Kind::Encryption,
                    },
                ),
            )
        },
    }
}

/// Input of a reader that got part of a frame holds nothing yet, and once it got all of
/// it, it holds the frame and nothing else.
proof fn lemma_arrives(frame: Frame, pending: Seq<u8>, left: Seq<u8>)
    requires
        fitting(frame, pending + left),
    ensures
        ({
            let input = framing::Input { pending, discarding: false };
            &&& framing::past_oversized(input) == input
            &&& if left.len() > 0 {
                framing::next_item(input) is None && framing::after_item(input) == input
            } else {
                &&& framing::next_item(input) == Some(framing::Item::Frame(pending.drop_last()))
                &&& framing::after_item(input) == framing::boundary()
                &&& match frame {
                    Frame::Dropped => pending.drop_last().len() == 0,
                    Frame::Undecodable => cobs::overruns(pending.drop_last()),
                    _ => framing::arrival(
                        framing::Item::Frame(pending.drop_last()),
                    ) is Packet,
                }
            }
        }),
{
    let whole = pending + left;
    let body = whole.drop_last();
    assert(cobs::zero_free(body) && whole.last() == 0 && body.len() <= transport::MAX_FRAME_SIZE);
    framing::lemma_first_zero(pending);
    if left.len() > 0 {
        let front = pending.take(pending.len() as int);
        assert forall|i: int| 0 <= i < front.len() implies front[i] != 0 by {
            assert(body[i] != 0);
        }
        assert(cobs::zero_free(pending.take(pending.len() as int)));
    } else {
        assert(whole =~= pending);
        let end = pending.len() - 1;
        assert(pending.take(end) =~= body);
        assert(cobs::zero_free(pending.take(end)));
        assert(pending.skip(end + 1) =~= Seq::<u8>::empty());
    }
}

/// What a call in progress on the host opens packets with: the keys of its hello, or what
/// it has of a session.
enum Ear {
    Handshake(HelloKeys),
    Recv(side_host::Phase),
}

/// Whether a frame is the answer to the hello of a handshake in progress.
spec fn answers(frame: Frame, call: Call) -> bool {
    match (frame, call) {
        (Frame::ArkHello { generation, .. }, Call::Handshake { generation: asked, .. }) => {
            generation == asked
        },
        _ => false,
    }
}

/// Whether a conclusion is the one that an ArkHello with a flaw calls for.
spec fn befits(flaw: Flaw, concluded: Result<(Session, Vec<u8>, Attestation), Error>) -> bool {
    match concluded {
        Ok(_) => flaw == Flaw::Intact,
        Err(error) => {
            &&& flaw != Flaw::Intact
            &&& kind_of(error) == Some(
                if flaw == Flaw::Attest {
                    Kind::InvalidAttestation
                } else {
                    Kind::Handshake
                },
            )
        },
    }
}

/// Whether a packet is sealed to the keys of a hello that it does not answer, or is not
/// though it answers it, or leads to another conclusion than its flaw calls for.
spec fn misjudges(
    identity: VerifyingKey,
    hello: HelloKeys,
    call: Call,
    frame: Frame,
    packet: Seq<u8>,
) -> bool {
    ||| hello.addressed(packet) != answers(frame, call)
    ||| answers(frame, call) && exists|
        concluded: Result<(Session, Vec<u8>, Attestation), Error>,
    |
        {
            &&& handshake::concludes(&identity, packet, hello, None, Answerer::Ark, concluded)
            &&& !#[trigger] befits(frame->flaw, concluded)
        }
}

/// Whether a packet opens in the session of the host though it stands for no message that
/// was sealed at its position.
spec fn mishears(phase: side_host::Phase, model: Model, frame: Frame, packet: Seq<u8>) -> bool {
    let due = match frame {
        Frame::Sealed { session, seq, .. } => model.host_session == Some(session) && seq
            == model.host_seq,
        _ => false,
    };
    match phase {
        side_host::Phase::Established(session) => session.message_in(packet) is Some && !due,
        _ => false,
    }
}

/// Message that a sealed frame holds.
spec fn content(tag: u8, garbage: bool) -> Seq<u8> {
    if garbage {
        seq![7u8]
    } else {
        super::tagged(tag as u64)
    }
}

/// A sealed frame is of a session or an earlier one, and holds its message at its position
/// if it is of this one.
spec fn booked(session: Option<ArkSession>, frame: Frame, framed: Seq<u8>) -> bool {
    match frame {
        Frame::Sealed { session: id, seq, tag, garbage } => {
            &&& session matches Some(current)
            &&& id <= current.id
            &&& id == current.id ==> super::holds(
                sealing::sender_context(current.sender),
                seq as nat,
                framed.drop_last(),
                content(tag, garbage),
            )
        },
        _ => true,
    }
}

/// Whether the Ark's session is for an earlier hello than a generation.
spec fn later(session: Option<ArkSession>, generation: u64) -> bool {
    match session {
        Some(session) => session.id < generation,
        None => true,
    }
}

/// Two sessions of the Ark are one and the same, up to the messages sealed in it.
spec fn kin(session: Option<ArkSession>, after: Option<ArkSession>) -> bool {
    match (session, after) {
        (Some(session), Some(after)) => {
            &&& after.id == session.id
            &&& after.receiver == session.receiver
            &&& sealing::sender_context(after.sender) == sealing::sender_context(session.sender)
        },
        (None, None) => true,
        _ => false,
    }
}

/// Host and Ark are in step in a session of the host: what the host seals next the Ark
/// opens, and what the Ark sealed at the position of the host the host opens.
spec fn linked<'a>(phase: side_host::Phase, ark: Ark<'a>) -> bool {
    match phase {
        side_host::Phase::Established(session) => {
            &&& ark.session matches Some(other)
            &&& ark.host_session == Some(other.id)
            &&& sealing::in_step(session.sender, other.receiver)
            &&& sealing::receiver_context(session.receiver) == sealing::sender_context(
                other.sender,
            )
            &&& sealing::receiver_sequence(session.receiver) == ark.host_seq
        },
        _ => true,
    }
}

/// The Ark opened the ack of the host, but one of the two key exchanges of the handshake
/// does not agree: the sides do not arrive at the same key material.
spec fn discords<'a>(phase: side_host::Phase, ark: Ark<'a>) -> bool {
    &&& phase matches side_host::Phase::Established(session)
    &&& ark.session matches Some(other)
    &&& {
        ||| sealing::receiver_context(other.receiver) != sealing::sender_context(session.sender)
        ||| sealing::receiver_context(session.receiver) != sealing::sender_context(other.sender)
    }
}

/// What a read of the host gets.
enum Fed {
    Bytes(Vec<u8>),
    Failed(Kind),
}

/// Scripted Ark along with the model of the host it drives.
pub struct Ark<'a> {
    steps: &'a [Step],
    next: usize,  // Steps executed so far
    limit: usize,  // Steps to be executed
    identity: SigningKey,
    attestation: Attestation,
    outbox: Outbox,  // Frames the host wrote
    frames: Vec<Frame>,  // Frames produced, not yet read by the host
    packets: Vec<Vec<u8>>,  // Their bytes
    bytes: Vec<u8>,  // Bytes of the frame being handed over
    chunk: usize,  // Most bytes a read hands over, zero for all
    broken: bool,  // Whether the host's writes fail
    call: Call,  // Call the frames read feed into
    expect: Option<Expect>,  // Its predicted result once settled
    host_session: Option<u64>,  // Generation of the host's live session
    host_seq: u64,  // Packets the host opened in it
    writes: Vec<Wrote>,  // What the host should have written since the last look
    generation: u64,  // Hellos parsed from the outbox
    latest_hello: Option<(VerifyingKey, EncryptionKey)>,  // Keys of the last one
    outstanding: Vec<Outstanding>,  // ArkHellos awaiting an ack
    session: Option<ArkSession>,  // Live session on the Ark's side
    last_reply: Option<(Vec<u8>, Frame)>,  // Last sealed reply, framed
    summary: Summary,
    apart: Ghost<bool>,  // Whether every key drawn in place of the right one was another
}

impl<'a> View for Ark<'a> {
    type V = Model;

    closed spec fn view(&self) -> Model {
        Model {
            broken: self.broken,
            queue: self.frames@,
            call: self.call,
            expect: self.expect,
            host_session: self.host_session,
            host_seq: self.host_seq as nat,
            writes: self.writes@,
            generation: self.generation as nat,
            session: match self.session {
                Some(session) => Some((session.id, session.seq as nat)),
                None => None,
            },
            last_reply: match self.last_reply {
                Some((_, sealed)) => Some(sealed),
                None => None,
            },
            handshakes: self.summary.handshakes as nat,
            messages: self.summary.messages as nat,
            resets: self.summary.resets as nat,
            failures: self.summary.failures as nat,
        }
    }
}

impl<'a> Ark<'a> {
    /// Every queued frame has the bytes it stands for, and so has one kept to be repeated,
    /// the attestation leaves room in a frame, the outbox fails as the model says, the keys
    /// of a hello are there once one was seen, a settled call is over, and the script is
    /// not run past its end.
    spec fn wf(self) -> bool {
        &&& self.frames@.len() == self.packets@.len()
        &&& forall|i: int|
            0 <= i < self.packets@.len() ==> fitting(
                self.frames@[i],
                (#[trigger] self.packets@[i])@,
            )
        &&& self.last_reply matches Some((framed, sealed)) ==> fitting(sealed, framed@)
        &&& self.attestation@.len() <= TOKEN_OVERHEAD
        &&& self.broken == self.outbox.broken()
        &&& self.latest_hello is Some <==> self.generation > 0
        &&& self.expect is Some ==> self.call == Call::Idle
        &&& self.next <= self.limit <= MAX_STEPS
        &&& self.limit == run_length(self.steps@)
    }

    /// The script stands where it stood, and a key that was no stranger's stays so.
    spec fn paused(self, other: Ark<'a>) -> bool {
        &&& other.steps == self.steps
        &&& other.next == self.next
        &&& other.limit == self.limit
        &&& other.bytes == self.bytes
        &&& other.apart@ ==> self.apart@
    }

    /// Nothing changed but what the model says of the host.
    spec fn recast(self, after: Ark<'a>) -> bool {
        after == (Ark {
            call: after.call,
            expect: after.expect,
            host_session: after.host_session,
            host_seq: after.host_seq,
            writes: after.writes,
            ..self
        })
    }

    /// Ark in front of a host without a session, the script at its start.
    fn new(steps: &'a [Step], identity: SigningKey, attestation: Attestation) -> (ark: Ark<'a>)
        requires
            attestation@.len() <= TOKEN_OVERHEAD,
        ensures
            ark.wf(),
            ark@ == Model::start(),
            ark.steps == steps,
            ark.next == 0,
            ark.outstanding@.len() == 0,
            ark.bytes@.len() == 0,
            ark.outbox.bytes() == Seq::<u8>::empty(),
            ark.identity == identity,
            ark.attestation@ == attestation@,
            ark.untouched(),
            ark.apart@,
    {
        let limit: usize = if steps.len() < MAX_STEPS {
            steps.len()
        } else {
            MAX_STEPS
        };
        let ark = Ark {
            steps,
            next: 0,
            limit,
            identity,
            attestation,
            outbox: Outbox::new(),
            frames: Vec::new(),
            packets: Vec::new(),
            bytes: Vec::new(),
            chunk: 0,
            broken: false,
            call: Call::Idle,
            expect: None,
            host_session: None,
            host_seq: 0,
            writes: Vec::new(),
            generation: 0,
            latest_hello: None,
            outstanding: Vec::new(),
            session: None,
            last_reply: None,
            summary: Summary::default(),
            apart: Ghost(true),
        };
        proof {
            assert(ark@.queue =~= Seq::<Frame>::empty());
            assert(ark@.writes =~= Seq::<Wrote>::empty());
            ark.lemma_idle();
        }
        ark
    }

    /// One more packet waits for the host, made of the given bytes, and nothing else
    /// changed.
    spec fn pushed(self, before: Ark<'a>, bytes: Seq<u8>) -> bool {
        &&& self == (Ark { frames: self.frames, packets: self.packets, ..before })
        &&& self.packets@.len() == before.packets@.len() + 1
        &&& self.packets@.drop_last() == before.packets@
        &&& self.packets@.last()@ == bytes
    }

    /// An ArkHello for the latest HostHello waits for the host, flawed as requested.
    /// Without a flaw it awaits the host's ack.
    spec fn greeted_with(
        self,
        before: Ark<'a>,
        hello: (VerifyingKey, EncryptionKey),
        flaw: Flaw,
        packet: Seq<u8>,
        pending: Pending,
        others: Strangers,
    ) -> bool {
        &&& crafted(before.identity, before.attestation@, hello, flaw, pending, others, packet)
        &&& self.apart@ == (before.apart@ && others.apart(before.identity, hello, flaw))
        &&& self.pushed(
            Ark { outstanding: self.outstanding, apart: self.apart, ..before },
            super::packet_frame(packet),
        )
        &&& self.outstanding@ == if flaw == Flaw::Intact {
            before.outstanding@.push(Outstanding { generation: before.generation, pending })
        } else {
            before.outstanding@
        }
    }

    /// A message sealed in the Ark's session waits for the host, and is kept to be
    /// repeated.
    spec fn replied_with(self, before: Ark<'a>, message: Seq<u8>) -> bool {
        match before.session {
            Some(session) => {
                let packet = session.next_packet(message);
                let framed = super::packet_frame(packet);
                &&& packet.len() == message.len() + sealing::OVERHEAD
                &&& cobs::carries(cobs::cobs_encoded(packet), packet)
                &&& self.pushed(
                    Ark { session: self.session, last_reply: self.last_reply, ..before },
                    framed,
                )
                &&& self.last_reply matches Some((bytes, _))
                &&& bytes@ == framed
                &&& self.session matches Some(next)
                &&& session.advanced(next)
            },
            None => self.pushed(before, super::text_frame("reply without a session"@)),
        }
    }

    /// The packet that a step stands for waits for the host.
    #[verifier::opaque]
    spec fn produced(self, before: Ark<'a>, step: Step) -> bool {
        match step {
            Step::Reply(tag) => self.replied_with(before, super::tagged(tag as u64)),
            Step::ReplyReplay => match before.last_reply {
                Some((framed, _)) => self.pushed(before, framed@),
                None => self == before,
            },
            Step::ReplyTampered => match before.session {
                Some(session) => {
                    let packet = session.next_packet(super::tagged(0));
                    &&& self.pushed(
                        Ark { session: self.session, ..before },
                        super::packet_frame(super::tampered(packet)),
                    )
                    &&& self.session matches Some(next)
                    &&& session.advanced(next)
                },
                None => self.pushed(
                    before,
                    super::text_frame("tampered reply without a session"@),
                ),
            },
            Step::Garbage => self.replied_with(before, seq![7u8]),
            Step::Dropped => self.pushed(before, seq![0u8]),
            Step::Junk(bytes) => self.pushed(before, super::packet_frame(bytes@)),
            Step::Undecodable => self.pushed(before, seq![0xffu8, 0x01u8, 0x00u8]),
            Step::Break => {
                &&& self == (Ark { broken: true, outbox: self.outbox, ..before })
                &&& self.outbox.broken()
                &&& self.outbox.bytes() == before.outbox.bytes()
            },
            Step::Heal => {
                &&& self == (Ark { broken: false, outbox: self.outbox, ..before })
                &&& !self.outbox.broken()
                &&& self.outbox.bytes() == before.outbox.bytes()
            },
            Step::Chunk(size) => self == (Ark { chunk: size as usize, ..before }),
            _ => match (flaw_of(step), before.latest_hello) {
                (Some(flaw), Some(hello)) => exists|
                    packet: Seq<u8>,
                    pending: Pending,
                    others: Strangers,
                |
                    #[trigger]
                    self.greeted_with(before, hello, flaw, packet, pending, others),
                (Some(_), None) => self.pushed(
                    before,
                    super::text_frame("ark hello without a host hello"@),
                ),
                (None, _) => self == before,
            },
        }
    }

    /// Position of the latest outstanding ArkHello that a packet is the ack for.
    spec fn answered_at(self, packet: Seq<u8>, at: int) -> bool {
        let identity = keys::xdsa_public(self.identity);
        &&& 0 <= at < self.outstanding@.len()
        &&& handshake::ack_context(packet, self.outstanding@[at].pending, identity) is Some
        &&& forall|j: int|
            at < j < self.outstanding@.len() ==> handshake::ack_context(
                packet,
                (#[trigger] self.outstanding@[j]).pending,
                identity,
            ) is None
    }

    /// A packet is the ack for no outstanding ArkHello.
    spec fn unanswered(self, packet: Seq<u8>) -> bool {
        forall|j: int|
            0 <= j < self.outstanding@.len() ==> handshake::ack_context(
                packet,
                (#[trigger] self.outstanding@[j]).pending,
                keys::xdsa_public(self.identity),
            ) is None
    }

    /// The session of an answered ArkHello is open, its contexts fresh.
    spec fn opened(self, answered: Outstanding, packet: Seq<u8>, identity: VerifyingKey) -> bool {
        &&& self.session matches Some(session)
        &&& session.id == answered.generation
        &&& session.seq == 0
        &&& session.sender == answered.pending.sender
        &&& handshake::ack_context(packet, answered.pending, identity) == Some(
            sealing::receiver_context(session.receiver),
        )
        &&& sealing::receiver_sequence(session.receiver) == 0
    }

    /// Number of the request that a packet holds in the Ark's session, if it holds one.
    spec fn request_in(self, packet: Seq<u8>) -> Option<u64> {
        match self.session {
            Some(session) => match sealing::message_of(
                sealing::receiver_context(session.receiver),
                sealing::receiver_sequence(session.receiver),
                packet,
            ) {
                Some(message) => super::tag_of(message),
                None => None,
            },
            None => None,
        }
    }

    /// A frame is one that the host was to write.
    spec fn shows(self, frame: Seq<u8>, wrote: Wrote) -> bool {
        &&& cobs::cobs_decoded(frame) matches Ok(packet)
        &&& match wrote {
            Wrote::Hello => handshake::hello_keys(packet) is Some,
            Wrote::Ack(generation) => exists|at: int| #[trigger]
                self.answered_at(packet, at) && self.outstanding@[at].generation == generation,
            Wrote::Request(id) => self.request_in(packet) == Some(id),
        }
    }

    /// A frame is not the one that the host was to write. A request was tried in the Ark's
    /// session, where what the host sealed at its position would have opened.
    spec fn unseen(self, frame: Seq<u8>, wrote: Wrote) -> bool {
        &&& !self.shows(frame, wrote)
        &&& wrote is Request ==> match (cobs::cobs_decoded(frame), self.session) {
            (Ok(packet), Some(session)) => sealing::reads_back(
                sealing::receiver_context(session.receiver),
                sealing::receiver_sequence(session.receiver),
                packet,
            ),
            _ => true,
        }
    }

    /// A frame that the host was to write is taken in. A hello is remembered, an ack
    /// opens the session of the ArkHello it answers, and a request moves the session's
    /// receiving context on.
    spec fn saw(self, frame: Seq<u8>, wrote: Wrote, after: Ark<'a>) -> bool {
        &&& after.wf()
        &&& after == (Ark {
            generation: after.generation,
            latest_hello: after.latest_hello,
            outstanding: after.outstanding,
            session: after.session,
            ..self
        })
        &&& after@ == self@.seeing(wrote)
        &&& self.paused(after)
        &&& self.shows(frame, wrote)
        &&& cobs::cobs_decoded(frame) matches Ok(packet)
        &&& match wrote {
            Wrote::Hello => {
                &&& after.latest_hello == handshake::hello_keys(packet)
                &&& after.outstanding == self.outstanding
                &&& after.session == self.session
            },
            Wrote::Ack(_) => {
                &&& after.latest_hello == self.latest_hello
                &&& exists|at: int|
                    {
                        &&& #[trigger] self.answered_at(packet, at)
                        &&& after.opened(
                            self.outstanding@[at],
                            packet,
                            keys::xdsa_public(self.identity),
                        )
                        &&& after.outstanding@ == self.outstanding@.remove(at)
                    }
            },
            Wrote::Request(_) => {
                &&& after.latest_hello == self.latest_hello
                &&& after.outstanding == self.outstanding
                &&& self.session matches Some(session)
                &&& after.session matches Some(next)
                &&& next.sender == session.sender
                &&& sealing::receiver_context(next.receiver) == sealing::receiver_context(
                    session.receiver,
                )
                &&& sealing::receiver_sequence(next.receiver) == sealing::receiver_sequence(
                    session.receiver,
                ) + 1
            },
        }
    }

    /// The frames written are taken out of the outbox, along with what they were to be.
    spec fn emptied(self, after: Ark<'a>) -> bool {
        &&& after == (Ark { outbox: after.outbox, writes: after.writes, ..self })
        &&& after.outbox.bytes() == Seq::<u8>::empty()
        &&& after.outbox.broken() == self.outbox.broken()
        &&& after.writes@ == Seq::<Wrote>::empty()
    }

    /// Frames that the host wrote since the last look, those of signals left out.
    spec fn written(self) -> Seq<Seq<u8>> {
        filled(framing::pieces(self.outbox.bytes()))
    }

    /// The Ark after each of the first frames that the host wrote, all of them being
    /// what the host was to write.
    spec fn sees_all(self, arks: Seq<Ark<'a>>) -> bool {
        &&& 1 <= arks.len() <= self.written().len() + 1
        &&& arks.len() <= self.writes@.len() + 1
        &&& self.emptied(arks[0])
        &&& forall|j: int|
            0 <= j < arks.len() - 1 ==> (#[trigger] arks[j]).saw(
                self.written()[j],
                self.writes@[j],
                arks[j + 1],
            )
    }

    /// The host wrote exactly what it was to write, and all of it is taken in.
    #[verifier::opaque]
    spec fn ingests(self, after: Ark<'a>) -> bool {
        &&& super::terminated(self.outbox.bytes())
        &&& self.written().len() == self.writes@.len()
        &&& exists|arks: Seq<Ark<'a>>| #[trigger]
            self.sees_all(arks) && arks.len() == self.writes@.len() + 1 && arks.last() == after
    }

    /// The host wrote something else than it was to write, or one hello more than the
    /// Ark can count.
    #[verifier::opaque]
    spec fn misread(self, divergence: Divergence) -> bool {
        if !super::terminated(self.outbox.bytes()) {
            divergence == Divergence::Emitted
        } else {
            exists|arks: Seq<Ark<'a>>| #[trigger]
                self.sees_all(arks) && self.stuck(arks, divergence)
        }
    }

    /// The frame behind those taken in is not what the host was to write.
    spec fn stuck(self, arks: Seq<Ark<'a>>, divergence: Divergence) -> bool {
        let at = arks.len() - 1;
        if at < self.written().len() && at < self.writes@.len() {
            match divergence {
                Divergence::Setup => {
                    &&& self.writes@[at] == Wrote::Hello
                    &&& arks.last()@.generation == u64::MAX
                },
                Divergence::Emitted => arks.last().unseen(self.written()[at], self.writes@[at]),
                _ => false,
            }
        } else {
            &&& divergence == Divergence::Emitted
            &&& self.written().len() != self.writes@.len()
        }
    }

    /// One more frame is taken in.
    proof fn lemma_sees_more(self, arks: Seq<Ark<'a>>, next: Ark<'a>)
        requires
            self.sees_all(arks),
            arks.len() <= self.written().len(),
            arks.len() <= self.writes@.len(),
            arks.last().saw(
                self.written()[arks.len() - 1],
                self.writes@[arks.len() - 1],
                next,
            ),
        ensures
            self.sees_all(arks.push(next)),
    {
        let longer = arks.push(next);
        assert forall|j: int| 0 <= j < longer.len() - 1 implies (#[trigger] longer[j]).saw(
            self.written()[j],
            self.writes@[j],
            longer[j + 1],
        ) by {
            if j < arks.len() - 1 {
                assert(arks[j].saw(self.written()[j], self.writes@[j], arks[j + 1]));
            }
        }
    }

    /// What was written is misread at the frame behind those taken in.
    proof fn lemma_stuck(self, arks: Seq<Ark<'a>>, divergence: Divergence)
        requires
            super::terminated(self.outbox.bytes()),
            self.sees_all(arks),
            self.stuck(arks, divergence),
        ensures
            self.misread(divergence),
    {
        reveal(Ark::misread);
    }

    /// The host wrote all the hellos that it was to write but the last ones, and nothing
    /// else.
    #[verifier::opaque]
    spec fn tidy(self, missing: int) -> bool {
        &&& super::terminated(self.outbox.bytes())
        &&& hellos(self.writes@)
        &&& self.written().len() == self.writes@.len() - missing
        &&& forall|j: int|
            0 <= j < self.written().len() ==> legible(#[trigger] self.written()[j])
    }

    /// Nobody has a session, and few hellos were seen and few results counted.
    spec fn lonely(self) -> bool {
        &&& self.session is None
        &&& self.host_session is None
        &&& self.host_seq == 0
        &&& self.generation + self.writes@.len() <= self.next
        &&& self.summary.failures <= self.next
        &&& self.summary.resets <= self.next
    }

    /// Nobody has a session, and the host wrote the hellos that it was to write.
    spec fn untouched(self) -> bool {
        self.tidy(0) && self.lonely()
    }

    /// The result of a call can be counted.
    spec fn has_room(self) -> bool {
        self.summary.failures < self.next && self.summary.resets < self.next
    }

    /// A call in progress comes to its result without a packet being opened.
    spec fn smooth(self) -> bool {
        &&& self.untouched()
        &&& self.has_room()
        &&& clear(self@, self.steps@, self.next as int)
    }

    /// The Ark has room for another call: the script has moved on behind the last one.
    spec fn fresh(self) -> bool {
        &&& self.untouched()
        &&& self.bytes@.len() == 0
        &&& self.generation + self.writes@.len() < self.next
        &&& self.has_room()
    }

    /// A host that has written nothing and was to write nothing left nothing out.
    proof fn lemma_idle(self)
        requires
            self.outbox.bytes() == Seq::<u8>::empty(),
            self.writes@ == Seq::<Wrote>::empty(),
        ensures
            self.tidy(0),
    {
        reveal(Ark::tidy);
        framing::lemma_first_zero(Seq::<u8>::empty());
        assert(framing::pieces(Seq::<u8>::empty()) =~= Seq::<Seq<u8>>::empty());
    }

    /// What the host wrote is as tidy whatever else changes.
    proof fn lemma_still_tidy(self, after: Ark<'a>, missing: int)
        requires
            self.tidy(missing),
            after.outbox == self.outbox,
            after.writes@ == self.writes@,
        ensures
            after.tidy(missing),
    {
        reveal(Ark::tidy);
    }

    /// Hellos that the host was to write are never misread.
    proof fn lemma_tidy(self, divergence: Divergence)
        requires
            self.tidy(0),
            self.lonely(),
            self.wf(),
        ensures
            !self.misread(divergence),
    {
        reveal(Ark::tidy);
        if self.misread(divergence) {
            reveal(Ark::misread);
            let arks = choose|arks: Seq<Ark<'a>>| #[trigger]
                self.sees_all(arks) && self.stuck(arks, divergence);
            let at = arks.len() - 1;
            self.lemma_counts(arks, at);
            if at < self.writes@.len() {
                assert(self.writes@[at] == Wrote::Hello);
                assert(legible(self.written()[at]));
            }
        }
    }

    /// Every hello taken in counts for one generation.
    proof fn lemma_counts(self, arks: Seq<Ark<'a>>, at: int)
        requires
            self.sees_all(arks),
            hellos(self.writes@),
            0 <= at < arks.len(),
        ensures
            arks[at]@.generation == self@.generation + at,
        decreases at,
    {
        if at > 0 {
            self.lemma_counts(arks, at - 1);
            assert(self.writes@[at - 1] == Wrote::Hello);
            assert(arks[at - 1].saw(self.written()[at - 1], self.writes@[at - 1], arks[at]));
        }
    }

    /// The host wrote as many frames as it was to write but the last ones, and a hello
    /// wherever it was to write one.
    #[verifier::opaque]
    spec fn even(self, missing: int) -> bool {
        &&& super::terminated(self.outbox.bytes())
        &&& self.written().len() == self.writes@.len() - missing
        &&& forall|j: int|
            0 <= j < self.written().len() && self.writes@[j] == Wrote::Hello ==> legible(
                #[trigger] self.written()[j],
            )
    }

    /// Sessions have sealed no more messages than a limit, those that are not open yet
    /// none.
    spec fn capped(self, limit: int) -> bool {
        &&& self.session matches Some(session) ==> session.seq <= limit
            && sealing::sender_sequence(session.sender) <= limit
        &&& forall|j: int|
            0 <= j < self.outstanding@.len() ==> sealing::sender_sequence(
                (#[trigger] self.outstanding@[j]).pending.sender,
            ) == 0
    }

    /// Fewer results than a limit were counted.
    spec fn tallies_below(self, limit: int) -> bool {
        &&& self.summary.handshakes < limit
        &&& self.summary.messages < limit
        &&& self.summary.resets < limit
        &&& self.summary.failures < limit
    }

    /// The host was to write no request.
    spec fn unasked(self) -> bool {
        forall|j: int| 0 <= j < self.writes@.len() ==> !(#[trigger] self.writes@[j] is Request)
    }

    /// Nothing was counted more often than the script so far can account for.
    spec fn bounded(self) -> bool {
        &&& self.unasked()
        &&& self.capped(self.next as int)
        &&& self.tallies_below(self.next + 1)
        &&& self.host_seq <= self.next
        &&& self.generation + self.writes@.len() <= 2 * self.next
    }

    /// Another result can be counted, another packet opened and another ack written.
    spec fn roomy(self) -> bool {
        &&& self.unasked()
        &&& self.capped(self.next as int)
        &&& self.tallies_below(self.next as int)
        &&& self.host_seq < self.next
        &&& self.generation + self.writes@.len() < 2 * self.next
    }

    /// Every sealed frame that waits for the host, or is kept to be repeated, is of the Ark's
    /// session or an earlier one, and holds its message at its position if it is of this
    /// one. All that the host was to write before the last thing are hellos, and an ack is
    /// for a later ArkHello than that of the Ark's session.
    #[verifier::opaque]
    spec fn ledger(self) -> bool {
        &&& forall|i: int|
            0 <= i < self.packets@.len() ==> booked(
                self.session,
                self.frames@[i],
                (#[trigger] self.packets@[i])@,
            )
        &&& match self.last_reply {
            Some((framed, sealed)) => booked(self.session, sealed, framed@),
            None => true,
        }
        &&& match self.session {
            Some(session) => {
                &&& sealing::sender_sequence(session.sender) == session.seq
                &&& session.id <= self.generation
            },
            None => true,
        }
        &&& forall|j: int|
            0 <= j < self.outstanding@.len() ==> (#[trigger] self.outstanding@[j]).generation
                <= self.generation
        &&& forall|j: int|
            0 <= j < self.writes@.len() - 1 ==> #[trigger] self.writes@[j] == Wrote::Hello
        &&& self.writes@.len() > 0 ==> match (self.writes@.last(), self.session) {
            (Wrote::Ack(generation), Some(session)) => session.id < generation,
            _ => true,
        }
    }

    /// What a call in progress has of a session: a handshake is for a later hello than that
    /// of the Ark's session, a receive is in step with it.
    spec fn tied(self, ear: Ear) -> bool {
        match ear {
            Ear::Handshake(_) => match (self.call, self.session) {
                (Call::Handshake { generation, .. }, Some(session)) => session.id < generation,
                _ => true,
            },
            Ear::Recv(phase) => linked(phase, self),
        }
    }

    /// The Ark does not open the ack for any of its ArkHellos that the host was to write.
    #[verifier::opaque]
    spec fn deaf(self) -> bool {
        exists|arks: Seq<Ark<'a>>|
            {
                let at = arks.len() - 1;
                &&& #[trigger] self.sees_all(arks)
                &&& at < self.written().len()
                &&& at < self.writes@.len()
                &&& self.writes@[at] is Ack
                &&& !arks.last().shows(self.written()[at], self.writes@[at])
            }
    }

    /// The host takes the frame queued first for something else than it stands for.
    spec fn confused(self, ear: Ear, identity: VerifyingKey) -> bool {
        &&& self.frames@.len() > 0
        &&& !plain(self.frames@[0])
        &&& cobs::cobs_decoded(self.packets@[0]@.drop_last()) matches Ok(packet)
        &&& match ear {
            Ear::Handshake(hello) => misjudges(identity, hello, self.call, self.frames@[0], packet),
            Ear::Recv(phase) => mishears(phase, self@, self.frames@[0], packet),
        }
    }

    /// The next read comes to a frame that the host takes for something else than it stands
    /// for, or to a step at which the Ark does not open what the host wrote, though every
    /// stranger so far was one.
    #[verifier::opaque]
    spec fn strays(self, ear: Ear, identity: VerifyingKey) -> bool {
        exists|arks: Seq<Ark<'a>>|
            {
                let at = Ark { next: (arks.last().next + 1) as usize, ..arks.last() };
                &&& #[trigger] self.skips(arks)
                &&& at.apart@
                &&& arks.last().confused(ear, identity) || at.deaf()
            }
    }

    /// The Ark awaits a read of a call in progress, everything so far having been as it was
    /// to be.
    spec fn ready(self, call: Call, session: Option<u64>, ear: Ear) -> bool {
        &&& self.wf()
        &&& self.bytes@.len() == 0
        &&& self.call == call
        &&& self.host_session == session
        &&& self.roomy()
        &&& self.even(0)
        &&& junk_fits(self.steps@)
        &&& self.ledger()
        &&& self.tied(ear)
        &&& hellos(self.writes@)
    }

    /// What the Ark knows of the host is what it saw of it.
    proof fn lemma_sees_model(self, arks: Seq<Ark<'a>>, at: int)
        requires
            self.sees_all(arks),
            0 <= at < arks.len(),
        ensures
            arks[at]@ == self@.seeing_all(self@.writes, at),
        decreases at,
    {
        if at > 0 {
            self.lemma_sees_model(arks, at - 1);
            assert(arks[at - 1].saw(self.written()[at - 1], self.writes@[at - 1], arks[at]));
        } else {
            assert(arks[0]@ == (Model { writes: Seq::empty(), ..self@ }));
        }
    }

    /// Hellos leave the Ark's session alone.
    proof fn lemma_sees_hellos(self, arks: Seq<Ark<'a>>, at: int)
        requires
            self.sees_all(arks),
            0 <= at < arks.len(),
            forall|j: int| 0 <= j < at ==> #[trigger] self.writes@[j] == Wrote::Hello,
        ensures
            arks[at].session == self.session,
            arks[at].outstanding == self.outstanding,
            arks[at].generation >= self.generation,
        decreases at,
    {
        if at > 0 {
            self.lemma_sees_hellos(arks, at - 1);
            assert(self.writes@[at - 1] == Wrote::Hello);
            assert(arks[at - 1].saw(self.written()[at - 1], self.writes@[at - 1], arks[at]));
            assert(arks[at].generation == arks[at]@.generation);
        }
    }

    /// What becomes of the Ark's session once what the host wrote was taken in.
    #[verifier::spinoff_prover]
    #[verifier::rlimit(40)]
    proof fn lemma_ingested_ledger(self, after: Ark<'a>, limit: int)
        requires
            self.ingests(after),
            self.ledger(),
            self.frames@.len() == self.packets@.len(),
            self.capped(limit),
            limit >= 0,
        ensures
            after.ledger(),
            after@ == self@.ingested(),
            after.frames == self.frames,
            after.packets == self.packets,
            hellos(self.writes@) ==> after.session == self.session,
            self.writes@.len() > 0 ==> match self.writes@.last() {
                Wrote::Hello => after.session == self.session,
                Wrote::Ack(generation) => {
                    &&& after.session matches Some(session)
                    &&& session.id == generation
                    &&& sealing::receiver_sequence(session.receiver) == 0
                },
                Wrote::Request(_) => {
                    &&& self.session matches Some(session)
                    &&& after.session matches Some(next)
                    &&& next.id == session.id
                    &&& next.sender == session.sender
                    &&& sealing::receiver_context(next.receiver) == sealing::receiver_context(
                        session.receiver,
                    )
                    &&& sealing::receiver_sequence(next.receiver) == sealing::receiver_sequence(
                        session.receiver,
                    ) + 1
                },
            },
    {
        reveal(Ark::ingests);
        reveal(Ark::ledger);
        let arks = choose|arks: Seq<Ark<'a>>| #[trigger]
            self.sees_all(arks) && arks.len() == self.writes@.len() + 1 && arks.last() == after;
        let last = arks.len() - 1;
        self.lemma_sees(arks, last, limit);
        self.lemma_sees_model(arks, last);
        reveal(Model::ingested);
        assert(after.session is Some == after@.session is Some);
        if last > 0 {
            let before = arks[last - 1];
            let wrote = self.writes@[last - 1];
            self.lemma_sees(arks, last - 1, limit);
            self.lemma_sees_hellos(arks, last - 1);
            assert(before.saw(self.written()[last - 1], wrote, after));
            assert(after@.session == before@.seeing(wrote).session);
            assert(after.generation == after@.generation);
            assert(before.generation == before@.generation);
        }
        if let Some(session) = self.session {
            assert(after.session matches Some(next) && (next.id > session.id || next.id
                == session.id && next.sender == session.sender));
        }
    }

    /// A step keeps the ledger.
    #[verifier::spinoff_prover]
    #[verifier::rlimit(60)]
    proof fn lemma_executed_ledger(self, step: Step, after: Ark<'a>)
        requires
            self.ledger(),
            self.wf(),
            self.next > 0,
            self.capped(self.next - 1),
            hellos(self.writes@),
            self.executes(step, after),
            after@ == self@.executed(step),
            !step.calls(),
            !(step is Yield),
        ensures
            after.ledger(),
            kin(self.session, after.session),
    {
        let seen = choose|seen: Ark<'a>|
            self.ingests(seen) && seen.frames@ == self.frames@ && #[trigger] after.produced(
                seen,
                step,
            );
        self.lemma_ingested(seen, self.next - 1);
        self.lemma_ingested_ledger(seen, self.next - 1);
        reveal(Ark::ledger);
        reveal(Ark::produced);
        reveal(Model::executed);
        assert(after.frames@ == after@.queue && seen.frames@ == seen@.queue);
        assert(after@ == seen@.producing(step));
        assert(match after.last_reply {
            Some((_, sealed)) => after@.last_reply == Some(sealed),
            None => after@.last_reply is None,
        });
        assert(match seen.last_reply {
            Some((_, sealed)) => seen@.last_reply == Some(sealed),
            None => seen@.last_reply is None,
        });
        assert forall|i: int| 0 <= i < after.packets@.len() implies booked(
            after.session,
            after.frames@[i],
            (#[trigger] after.packets@[i])@,
        ) by {
            if i < seen.packets@.len() {
                assert(after.packets@[i] == seen.packets@[i]) by {
                    if after.packets@.len() > seen.packets@.len() {
                        assert(after.packets@.drop_last()[i] == after.packets@[i]);
                    }
                }
                assert(after.frames@[i] == seen.frames@[i]);
                assert(booked(seen.session, seen.frames@[i], seen.packets@[i]@));
            } else {
                assert(after.packets@[i] == after.packets@.last());
                assert(after.frames@[i] == after.frames@.last());
                if let (Some(session), true) = (
                    seen.session,
                    step is Reply || step is Garbage,
                ) {
                    let message = match step {
                        Step::Reply(tag) => super::tagged(tag as u64),
                        _ => seq![7u8],
                    };
                    let body = cobs::cobs_encoded(session.next_packet(message));
                    assert(super::packet_frame(session.next_packet(message)).drop_last() =~= body);
                }
            }
        }
        if let (Some(session), true) = (seen.session, step is Reply || step is Garbage) {
            let message = match step {
                Step::Reply(tag) => super::tagged(tag as u64),
                _ => seq![7u8],
            };
            let body = cobs::cobs_encoded(session.next_packet(message));
            assert(super::packet_frame(session.next_packet(message)).drop_last() =~= body);
        }
    }

    /// A frame that is taken leaves the rest of the ledger.
    #[verifier::spinoff_prover]
    #[verifier::rlimit(30)]
    proof fn lemma_takes_ledger(self, front: Seq<u8>, after: Ark<'a>)
        requires
            self.ledger(),
            self.wf(),
            hellos(self.writes@),
            self.takes(front, after),
            ({
                ||| after.writes@ == self.writes@
                ||| exists|generation: u64|
                    {
                        &&& after.writes@ == self.writes@.push(Wrote::Ack(generation))
                        &&& #[trigger] later(self.session, generation)
                    }
            }),
        ensures
            after.ledger(),
    {
        reveal(Ark::ledger);
        assert(after.frames@ == after@.queue && self.frames@ == self@.queue);
        assert forall|i: int| 0 <= i < after.packets@.len() implies booked(
            after.session,
            after.frames@[i],
            (#[trigger] after.packets@[i])@,
        ) by {
            assert(after.frames@[i] == self.frames@[i + 1]);
            assert(after.packets@[i] == self.packets@[i + 1]);
            assert(booked(self.session, self.frames@[i + 1], self.packets@[i + 1]@));
        }
    }

    /// The ledger is the same whatever else changes.
    proof fn lemma_still_ledger(self, after: Ark<'a>)
        requires
            self.ledger(),
            after.session == self.session,
            after.frames == self.frames,
            after.packets == self.packets,
            after.last_reply == self.last_reply,
            after.outstanding == self.outstanding,
            after.generation == self.generation,
            after.writes@ == self.writes@ || hellos(after.writes@),
        ensures
            after.ledger(),
    {
        reveal(Ark::ledger);
        assert forall|i: int| 0 <= i < after.packets@.len() implies booked(
            after.session,
            after.frames@[i],
            (#[trigger] after.packets@[i])@,
        ) by {
            assert(booked(self.session, self.frames@[i], self.packets@[i]@));
        }
        assert forall|j: int| 0 <= j < after.outstanding@.len() implies (
        #[trigger] after.outstanding@[j]).generation <= after.generation by {
            assert(self.outstanding@[j].generation <= self.generation);
        }
        assert forall|j: int| 0 <= j < after.writes@.len() - 1 implies #[trigger] after.writes@[j]
            == Wrote::Hello by {
            if after.writes@ == self.writes@ {
                assert(self.writes@[j] == Wrote::Hello);
            }
        }
    }

    /// A host that was to write nothing and wrote nothing is even.
    proof fn lemma_nothing(self)
        requires
            self.outbox.bytes() == Seq::<u8>::empty(),
            self.writes@ == Seq::<Wrote>::empty(),
        ensures
            self.even(0),
    {
        reveal(Ark::even);
        framing::lemma_first_zero(Seq::<u8>::empty());
        assert(framing::pieces(Seq::<u8>::empty()) =~= Seq::<Seq<u8>>::empty());
    }

    /// What the host wrote is as even whatever else changes.
    proof fn lemma_still_even(self, after: Ark<'a>, missing: int)
        requires
            self.even(missing),
            after.outbox == self.outbox,
            after.writes@ == self.writes@,
        ensures
            after.even(missing),
    {
        reveal(Ark::even);
    }

    /// Sessions are as capped whatever else changes.
    proof fn lemma_still_capped(self, after: Ark<'a>, limit: int, more: int)
        requires
            self.capped(limit),
            limit <= more,
            after.session == self.session,
            after.outstanding == self.outstanding,
        ensures
            after.capped(more),
    {
        assert forall|j: int|
            0 <= j < after.outstanding@.len() implies sealing::sender_sequence(
            (#[trigger] after.outstanding@[j]).pending.sender,
        ) == 0 by {
            assert(self.outstanding@[j] == after.outstanding@[j]);
        }
    }

    /// Taking in what the host wrote changes nothing but what the Ark knows of it.
    #[verifier::spinoff_prover]
    #[verifier::rlimit(30)]
    proof fn lemma_sees(self, arks: Seq<Ark<'a>>, at: int, limit: int)
        requires
            self.sees_all(arks),
            self.capped(limit),
            limit >= 0,
            0 <= at < arks.len(),
        ensures
            arks[at].capped(limit),
            arks[at].generation <= self.generation + at,
            arks[at] == (Ark {
                generation: arks[at].generation,
                latest_hello: arks[at].latest_hello,
                outstanding: arks[at].outstanding,
                session: arks[at].session,
                outbox: arks[0].outbox,
                writes: arks[0].writes,
                ..self
            }),
        decreases at,
    {
        if at > 0 {
            self.lemma_sees(arks, at - 1, limit);
            let before = arks[at - 1];
            let wrote = self.writes@[at - 1];
            let frame = self.written()[at - 1];
            assert(before.saw(frame, wrote, arks[at]));
            assert(arks[at]@.session == before@.seeing(wrote).session);
            assert(arks[at]@.generation == before@.seeing(wrote).generation);
        }
    }

    /// What the Ark is like once it took in what the host wrote.
    proof fn lemma_ingested(self, after: Ark<'a>, limit: int)
        requires
            self.ingests(after),
            self.capped(limit),
            limit >= 0,
        ensures
            after.capped(limit),
            after.generation <= self.generation + self.writes@.len(),
            after.writes@ == Seq::<Wrote>::empty(),
            after.outbox.bytes() == Seq::<u8>::empty(),
            after.even(0),
            after == (Ark {
                generation: after.generation,
                latest_hello: after.latest_hello,
                outstanding: after.outstanding,
                session: after.session,
                outbox: after.outbox,
                writes: after.writes,
                ..self
            }),
    {
        reveal(Ark::ingests);
        let arks = choose|arks: Seq<Ark<'a>>| #[trigger]
            self.sees_all(arks) && arks.len() == self.writes@.len() + 1 && arks.last() == after;
        self.lemma_sees(arks, arks.len() - 1, limit);
        after.lemma_nothing();
    }

    /// An Ark that misreads what the host wrote does not open something that the host was
    /// to write.
    proof fn lemma_misread_deaf(self, divergence: Divergence)
        requires
            self.even(0),
            self.unasked(),
            self.capped(self.next as int),
            self.generation + self.writes@.len() <= 2 * MAX_STEPS,
            self.misread(divergence),
        ensures
            self.deaf(),
    {
        reveal(Ark::even);
        reveal(Ark::misread);
        reveal(Ark::deaf);
        let arks = choose|arks: Seq<Ark<'a>>| #[trigger]
            self.sees_all(arks) && self.stuck(arks, divergence);
        let at = arks.len() - 1;
        self.lemma_sees(arks, at, self.next as int);
        if self.writes@[at] == Wrote::Hello {
            assert(legible(self.written()[at]));
        }
        if at < self.writes@.len() {
            assert(!(self.writes@[at] is Request));
        }
    }

    /// What an Ark step leaves behind.
    #[verifier::spinoff_prover]
    #[verifier::rlimit(40)]
    proof fn lemma_executed_roomy(self, step: Step, after: Ark<'a>)
        requires
            self.next > 0,
            self.capped(self.next - 1),
            self.executes(step, after),
        ensures
            after.capped(self.next as int),
            after.even(0),
            after.writes@ == Seq::<Wrote>::empty(),
            after.generation <= self.generation + self.writes@.len(),
            after.next == self.next,
            after.limit == self.limit,
            after.steps == self.steps,
            after.bytes == self.bytes,
            after.summary == self.summary,
            after.host_seq == self.host_seq,
            after.host_session == self.host_session,
            after.call == self.call,
            after.expect == self.expect,
    {
        let seen = choose|seen: Ark<'a>|
            self.ingests(seen) && seen.frames@ == self.frames@ && #[trigger] after.produced(
                seen,
                step,
            );
        self.lemma_ingested(seen, self.next - 1);
        reveal(Ark::produced);
        after.lemma_nothing();
    }

    /// A step that is executed while a read finds no frame leaves room.
    proof fn lemma_steps_on_roomy(self, after: Ark<'a>)
        requires
            self.bounded(),
            self.next < self.limit <= MAX_STEPS,
            self.steps_on(after),
        ensures
            after.roomy(),
            after.even(0),
            after.next == self.next + 1,
            after.steps == self.steps,
            after.bytes@.len() == 0,
            after.host_session == self.host_session,
            after.host_seq == self.host_seq,
            after.call == self.call,
            after.writes@ == Seq::<Wrote>::empty(),
            self.wf() && self.ledger() && hellos(self.writes@) ==> after.ledger() && kin(
                self.session,
                after.session,
            ),
    {
        let at = Ark { next: (self.next + 1) as usize, ..self };
        self.lemma_still_capped(at, self.next as int, self.next as int);
        at.lemma_executed_roomy(self.steps@[self.next as int], after);
        if self.wf() && self.ledger() && hellos(self.writes@) {
            self.lemma_still_ledger(at);
            at.lemma_executed_ledger(self.steps@[self.next as int], after);
        }
    }

    /// Steps that are executed while a read finds no frame leave the Ark ready.
    proof fn lemma_skips_ready(
        self,
        arks: Seq<Ark<'a>>,
        at: int,
        call: Call,
        session: Option<u64>,
        ear: Ear,
    )
        requires
            self.ready(call, session, ear),
            self.skips(arks),
            0 <= at < arks.len(),
        ensures
            arks[at].ready(call, session, ear),
        decreases at,
    {
        reveal(Ark::skips);
        if at > 0 {
            self.lemma_skips_ready(arks, at - 1, call, session, ear);
            assert(arks[at - 1].steps_on(arks[at]));
            arks[at - 1].lemma_steps_on_roomy(arks[at]);
        }
    }

    /// A step that cannot be executed is one at which the Ark does not open what the host
    /// wrote.
    proof fn lemma_stalls_deaf(self, step: Step, divergence: Divergence)
        requires
            self.even(0),
            self.unasked(),
            self.next > 0,
            self.next <= MAX_STEPS,
            self.capped(self.next - 1),
            self.generation + self.writes@.len() <= 2 * MAX_STEPS,
            fits(step),
            self.stalls(step, divergence),
        ensures
            self.deaf(),
    {
        if self.misread(divergence) {
            self.lemma_misread_deaf(divergence);
        } else {
            let seen = choose|seen: Ark<'a>| self.ingests(seen) && #[trigger] seen.unable(step);
            self.lemma_ingested(seen, self.next - 1);
        }
    }

    /// A read that diverges comes to a step at which the Ark does not open what the host
    /// wrote.
    proof fn lemma_diverges_strays(
        self,
        divergence: Divergence,
        call: Call,
        session: Option<u64>,
        ear: Ear,
        identity: VerifyingKey,
        after: Ark<'a>,
    )
        requires
            self.ready(call, session, ear),
            call != Call::Idle,
            self.diverges(divergence, after),
        ensures
            self.strays(ear, identity) || !after.apart@,
    {
        reveal(Ark::strays);
        let arks = choose|arks: Seq<Ark<'a>>| #[trigger]
            self.skips(arks) && after.apart == arks.last().apart && arks.last().halts(divergence);
        assert(arks.len() > 0) by {
            reveal(Ark::skips);
        }
        self.lemma_skips_ready(arks, arks.len() - 1, call, session, ear);
        let last = arks.last();
        let at = Ark { next: (last.next + 1) as usize, ..last };
        last.lemma_still_even(at, 0);
        last.lemma_still_capped(at, last.next as int, last.next as int);
        assert(fits(last.steps@[last.next as int])) by {
            reveal(junk_fits);
        }
        at.lemma_stalls_deaf(last.steps@[last.next as int], divergence);
    }

    /// The Ark's session has sealed all the messages that it can.
    spec fn exhausted(self) -> bool {
        self.session matches Some(session) && (sealing::sender_sequence(session.sender) > u64::MAX
            || session.seq == u64::MAX)
    }

    /// The frame of a step cannot be made: a message is to be sealed in a session that
    /// can seal no more, or the bytes of the step fit no frame.
    spec fn unable(self, step: Step) -> bool {
        self.exhausted() || !fits(step)
    }

    /// A step cannot be executed: the host wrote something else than it was to write,
    /// or the frame of the step cannot be made.
    spec fn stalls(self, step: Step, divergence: Divergence) -> bool {
        ||| self.misread(divergence)
        ||| divergence == Divergence::Setup && exists|seen: Ark<'a>|
            self.ingests(seen) && #[trigger] seen.unable(step)
    }

    /// A step is executed: what the host wrote is taken in, and the packet that the step
    /// stands for waits for the host.
    spec fn executes(self, step: Step, after: Ark<'a>) -> bool {
        &&& after.outbox.bytes() == Seq::<u8>::empty()
        &&& exists|seen: Ark<'a>|
            self.ingests(seen) && seen.frames@ == self.frames@ && #[trigger] after.produced(
                seen,
                step,
            )
    }

    /// Executes one Ark step, queuing the frame it produces in front of the host.
    /// The host's writes are taken in first, an ArkHello answering the latest hello
    /// and a reply sealing in the session the latest ack opened.
    #[verifier::spinoff_prover]
    #[verifier::rlimit(30)]
    fn execute(&mut self, step: &Step) -> (executed: Result<(), Divergence>)
        requires
            old(self).wf(),
            !step.calls(),
            !(step is Yield),
        ensures
            match executed {
                Ok(_) => {
                    &&& final(self).wf()
                    &&& final(self)@ == old(self)@.executed(*step)
                    &&& old(self).executes(*step, *final(self))
                },
                Err(divergence) => old(self).stalls(*step, divergence),
            },
            old(self).untouched() && fits(*step) ==> executed is Ok && final(self).untouched(),
            old(self).paused(*final(self)),
            executed is Err ==> final(self).apart == old(self).apart,
    {
        let ghost easy = old(self).untouched() && fits(*step);
        proof {
            if easy {
                self.lemma_tidy(Divergence::Emitted);
                self.lemma_tidy(Divergence::Setup);
                reveal(Ark::tidy);
                lemma_smooth_step(self@, *step);
            }
        }
        match self.ingest() {
            Ok(_) => {},
            Err(divergence) => return Err(divergence),
        }
        let ghost seen = *self;
        proof {
            reveal(Model::executed);
            lemma_step_keeps_call(old(self)@, *step);
        }
        assert(self.apart == old(self).apart);
        let made = self.produce(step);
        proof {
            assert(made is Err ==> seen.unable(*step));
            if easy {
                assert(seen@.session is None);
                assert(self.writes@ == Seq::<Wrote>::empty());
                self.lemma_idle();
            }
        }
        made
    }

    /// Produces the frame of an Ark step, what the host wrote having been taken in. It
    /// fails only if a message is to be sealed in a session that can seal no more, or
    /// if the bytes of a step fit no frame.
    fn produce(&mut self, step: &Step) -> (made: Result<(), Divergence>)
        requires
            old(self).wf(),
            !step.calls(),
            !(step is Yield),
        ensures
            match made {
                Ok(_) => {
                    &&& final(self).wf()
                    &&& final(self)@ == old(self)@.producing(*step)
                    &&& final(self).produced(*old(self), *step)
                },
                Err(divergence) => {
                    &&& divergence == Divergence::Setup
                    &&& old(self).exhausted() || (step matches Step::Junk(bytes)
                        && cobs::encoded_bound(bytes@.len() as int) > transport::MAX_FRAME_SIZE)
                },
            },
            final(self).outbox.bytes() == old(self).outbox.bytes(),
            old(self).paused(*final(self)),
            made is Err ==> final(self).apart == old(self).apart,
    {
        proof {
            reveal(Ark::produced);
        }
        match step {
            Step::Hello => self.ark_hello(Flaw::Intact),
            Step::HelloStale => self.ark_hello(Flaw::Stale),
            Step::HelloTampered => self.ark_hello(Flaw::Tampered),
            Step::HelloBadAuth => self.ark_hello(Flaw::Auth),
            Step::HelloBadSigner => self.ark_hello(Flaw::Signer),
            Step::HelloBadPayload => self.ark_hello(Flaw::Payload),
            Step::HelloBadKey => self.ark_hello(Flaw::Key),
            Step::HelloBadEncap => self.ark_hello(Flaw::Encap),
            Step::HelloBadAttest => self.ark_hello(Flaw::Attest),
            Step::Reply(tag) => return self.reply(Some(*tag)),
            Step::ReplyReplay => self.replay_reply(),
            Step::ReplyTampered => return self.tampered_reply(),
            Step::Garbage => return self.reply(None),
            Step::Dropped => {
                let bytes: Vec<u8> = vec![0u8];
                assert(bytes@ =~= seq![0u8]);
                self.queue(bytes, Frame::Dropped);
            },
            Step::Junk(bytes) => match try_frame(bytes.as_slice()) {
                Some(framed) => self.queue(framed, Frame::Junk),
                None => return Err(Divergence::Setup),
            },
            Step::Undecodable => {
                let bytes: Vec<u8> = vec![0xffu8, 0x01u8, 0x00u8];
                assert(bytes@ =~= seq![0xffu8, 0x01u8, 0x00u8]);
                self.queue(bytes, Frame::Undecodable);
            },
            Step::Break => self.set_broken(true),
            Step::Heal => self.set_broken(false),
            Step::Chunk(size) => {
                self.chunk = *size as usize;
            },
            _ => {},
        }
        Ok(())
    }

    /// Puts a frame in front of the host.
    fn queue(&mut self, framed: Vec<u8>, frame: Frame)
        requires
            old(self).wf(),
            fitting(frame, framed@),
        ensures
            final(self).wf(),
            final(self)@ == old(self)@.queued(frame),
            final(self).pushed(*old(self), framed@),
            old(self).paused(*final(self)),
    {
        self.frames.push(frame);
        self.packets.push(framed);
        assert(self.packets@.drop_last() =~= old(self).packets@);
    }

    /// Queues an ArkHello answering the latest HostHello, flawed as requested.
    fn ark_hello(&mut self, flaw: Flaw)
        requires
            old(self).wf(),
        ensures
            final(self).wf(),
            final(self)@ == old(self)@.greeting(flaw),
            match old(self).latest_hello {
                Some(hello) => exists|packet: Seq<u8>, pending: Pending, others: Strangers|
                    #[trigger]
                    final(self).greeted_with(*old(self), hello, flaw, packet, pending, others),
                None => final(self).pushed(
                    *old(self),
                    super::text_frame("ark hello without a host hello"@),
                ),
            },
            final(self).outbox.bytes() == old(self).outbox.bytes(),
            old(self).paused(*final(self)),
    {
        let hello = match &self.latest_hello {
            Some((signer, crypto)) => (signer.clone(), crypto.clone()),
            None => {
                proof {
                    reveal_strlit("ark hello without a host hello");
                }
                self.junk_text("ark hello without a host hello");
                return ;
            },
        };
        let drawn = HelloDraw::generate(&hello.1);
        self.ark_hello_with(hello, flaw, drawn);
    }

    /// Queues an ArkHello answering a HostHello, flawed as requested, made of the keys
    /// given.
    fn ark_hello_with(
        &mut self,
        hello: (VerifyingKey, EncryptionKey),
        flaw: Flaw,
        drawn: HelloDraw,
    )
        requires
            old(self).wf(),
            old(self).latest_hello == Some(hello),
            drawn.suits(hello.1),
        ensures
            final(self).wf(),
            final(self)@ == old(self)@.greeting(flaw),
            exists|packet: Seq<u8>|
                #[trigger]
                final(self).greeted_with(
                    *old(self),
                    hello,
                    flaw,
                    packet,
                    Pending { host_signer: hello.0, key: drawn.key, sender: drawn.sender },
                    drawn.others,
                ),
            final(self).outbox.bytes() == old(self).outbox.bytes(),
            old(self).paused(*final(self)),
    {
        let HelloDraw { key, sender, encap, others } = drawn;
        let (packet, pending) = craft_hello_with(
            &self.identity,
            &self.attestation,
            &hello,
            flaw,
            key,
            sender,
            encap,
            &others,
        ).unwrap();
        let ghost answer = pending;
        proof {
            self.apart@ = self.apart@ && others.apart(self.identity, hello, flaw);
        }
        let framed = frame(packet.as_slice());
        // A stale hello answers nobody, everything else the latest generation
        let generation: u64 = if flaw == Flaw::Stale {
            0
        } else {
            self.generation
        };
        if flaw == Flaw::Intact {
            self.outstanding.push(Outstanding { generation, pending });
        }
        self.queue(framed, Frame::ArkHello { generation, flaw });
        assert(self.greeted_with(*old(self), hello, flaw, packet@, answer, others));
    }

    /// Seals a short message in the Ark's session, if there is one.
    fn seal(&mut self, message: &[u8]) -> (sealed: Result<Option<(Vec<u8>, u64, u64)>, Divergence>)
        requires
            old(self).wf(),
            message@.len() <= 8,
        ensures
            match sealed {
                Ok(Some((packet, id, seq))) => {
                    &&& final(self).wf()
                    &&& old(self)@.session == Some((id, seq as nat))
                    &&& final(self)@ == (Model {
                        session: Some((id, (seq + 1) as nat)),
                        ..old(self)@
                    })
                    &&& old(self).session matches Some(session)
                    &&& final(self).session matches Some(next)
                    &&& session.advanced(next)
                    &&& packet@ == session.next_packet(message@)
                    &&& packet@.len() == message@.len() + sealing::OVERHEAD
                    &&& *final(self) == (Ark { session: final(self).session, ..*old(self) })
                },
                Ok(None) => {
                    &&& old(self)@.session is None
                    &&& *final(self) == *old(self)
                },
                Err(divergence) => divergence == Divergence::Setup && old(self).exhausted(),
            },
            final(self).outbox.bytes() == old(self).outbox.bytes(),
            old(self).paused(*final(self)),
            final(self).apart == old(self).apart,
    {
        let mut session = match self.session.take() {
            Some(session) => session,
            None => return Ok(None),
        };
        let packet = match sealing::seal(&mut session.sender, message) {
            Ok(packet) => packet,
            Err(_) => return Err(Divergence::Setup),
        };
        let id: u64 = session.id;
        let seq: u64 = session.seq;
        session.seq = match bump(seq) {
            Ok(next) => next,
            Err(divergence) => return Err(divergence),
        };
        self.session = Some(session);
        Ok(Some((packet, id, seq)))
    }

    /// Queues a packet sealed in the Ark's session, a tagged reply or garbage.
    fn reply(&mut self, number: Option<u8>) -> (queued: Result<(), Divergence>)
        requires
            old(self).wf(),
        ensures
            match queued {
                Ok(_) => {
                    &&& final(self).wf()
                    &&& final(self)@ == old(self)@.replying(number)
                    &&& final(self).replied_with(
                        *old(self),
                        match number {
                            Some(number) => super::tagged(number as u64),
                            None => seq![7u8],
                        },
                    )
                },
                Err(divergence) => divergence == Divergence::Setup && old(self).exhausted(),
            },
            final(self).outbox.bytes() == old(self).outbox.bytes(),
            old(self).paused(*final(self)),
            final(self).apart == old(self).apart,
    {
        let message = match number {
            Some(number) => tag(number as u64),
            None => {
                let garbage: Vec<u8> = vec![7u8];
                assert(garbage@ =~= seq![7u8]);
                garbage
            },
        };
        let (packet, session, seq) = match self.seal(message.as_slice()) {
            Ok(Some(sealed)) => sealed,
            Ok(None) => {
                proof {
                    reveal_strlit("reply without a session");
                }
                self.junk_text("reply without a session");
                return Ok(());
            },
            Err(divergence) => return Err(divergence),
        };
        let framed = frame(packet.as_slice());
        let sealed = match number {
            Some(number) => Frame::Sealed { session, seq, tag: number, garbage: false },
            None => Frame::Sealed { session, seq, tag: 0, garbage: true },
        };
        self.last_reply = Some((copy(&framed), sealed));
        self.queue(framed, sealed);
        Ok(())
    }

    /// Queues the last reply again, if there is one.
    fn replay_reply(&mut self)
        requires
            old(self).wf(),
        ensures
            final(self).wf(),
            final(self)@ == (match old(self)@.last_reply {
                Some(sealed) => old(self)@.queued(sealed),
                None => old(self)@,
            }),
            match old(self).last_reply {
                Some((framed, _)) => final(self).pushed(*old(self), framed@),
                None => *final(self) == *old(self),
            },
            final(self).outbox.bytes() == old(self).outbox.bytes(),
            old(self).paused(*final(self)),
    {
        let replay = match &self.last_reply {
            Some((framed, sealed)) => Some((copy(framed), *sealed)),
            None => None,
        };
        if let Some((framed, sealed)) = replay {
            self.queue(framed, sealed);
        }
    }

    /// Queues a reply sealed in the Ark's session with a flipped ciphertext byte,
    /// meaning nothing to the host anymore.
    fn tampered_reply(&mut self) -> (queued: Result<(), Divergence>)
        requires
            old(self).wf(),
        ensures
            match queued {
                Ok(_) => {
                    &&& final(self).wf()
                    &&& final(self)@ == old(self)@.producing(Step::ReplyTampered)
                    &&& final(self).produced(*old(self), Step::ReplyTampered)
                },
                Err(divergence) => divergence == Divergence::Setup && old(self).exhausted(),
            },
            final(self).outbox.bytes() == old(self).outbox.bytes(),
            old(self).paused(*final(self)),
            final(self).apart == old(self).apart,
    {
        proof {
            reveal(Ark::produced);
        }
        match self.seal(tag(0).as_slice()) {
            Ok(Some((packet, _, _))) => {
                let mut packet = packet;
                tamper(&mut packet);
                let framed = frame(packet.as_slice());
                self.queue(framed, Frame::Junk);
            },
            Ok(None) => {
                proof {
                    reveal_strlit("tampered reply without a session");
                }
                self.junk_text("tampered reply without a session");
            },
            Err(divergence) => return Err(divergence),
        }
        Ok(())
    }

    /// Queues a text as a frame, which means nothing to the host.
    fn junk_text(&mut self, text: &str)
        requires
            old(self).wf(),
            text.is_ascii(),
            text@.len() <= 64,
        ensures
            final(self).wf(),
            final(self)@ == old(self)@.queued(Frame::Junk),
            final(self).pushed(*old(self), super::text_frame(text@)),
            final(self).outbox.bytes() == old(self).outbox.bytes(),
            old(self).paused(*final(self)),
    {
        proof {
            vstd::utf8::is_ascii_chars_encode_utf8(text@);
        }
        let framed = frame(text.as_bytes());
        self.queue(framed, Frame::Junk);
    }

    /// Makes the host's writes fail, or work again.
    fn set_broken(&mut self, broken: bool)
        requires
            old(self).wf(),
        ensures
            final(self).wf(),
            final(self)@ == (Model { broken, ..old(self)@ }),
            *final(self) == (Ark { broken, outbox: final(self).outbox, ..*old(self) }),
            final(self).outbox.broken() == broken,
            final(self).outbox.bytes() == old(self).outbox.bytes(),
            old(self).paused(*final(self)),
    {
        self.outbox.set_broken(broken);
        self.broken = broken;
    }

    /// Parses everything the host wrote since the last look, tracking its hellos,
    /// acks and requests on the Ark's side of the model. Resets carry nothing to
    /// track.
    #[verifier::spinoff_prover]
    #[verifier::rlimit(30)]
    fn ingest(&mut self) -> (ingested: Result<(), Divergence>)
        requires
            old(self).wf(),
        ensures
            match ingested {
                Ok(_) => {
                    &&& final(self).wf()
                    &&& final(self)@ == old(self)@.ingested()
                    &&& old(self).ingests(*final(self))
                    &&& final(self).outbox.bytes() == Seq::<u8>::empty()
                },
                Err(divergence) => {
                    &&& old(self).misread(divergence)
                    &&& divergence == Divergence::Emitted || divergence == Divergence::Setup
                },
            },
            old(self).untouched() ==> ingested is Ok && final(self).untouched(),
            old(self).paused(*final(self)),
            final(self).apart == old(self).apart,
    {
        proof {
            if self.untouched() {
                self.lemma_tidy(Divergence::Emitted);
                self.lemma_tidy(Divergence::Setup);
                reveal(Ark::tidy);
                lemma_smooth_step(self@, Step::Yield);
            }
            reveal(Model::ingested);
        }
        let frames = match self.outbox.take_frames() {
            Some(frames) => frames,
            None => {
                proof {
                    reveal(Ark::misread);
                }
                return Err(Divergence::Emitted);
            },
        };
        let ghost before = self@;
        let writes = replace(&mut self.writes, Vec::new());
        assert(self@ == before.seeing_all(writes@, 0)) by {
            assert(self@.writes =~= Seq::<Wrote>::empty());
        }
        let ghost written = envelope::contents(frames@);
        let ghost mut arks: Seq<Ark<'a>> = seq![*self];
        let mut seen: usize = 0;
        let mut i: usize = 0;
        proof {
            assert(written.len() == frames@.len());
            assert(written.take(0) =~= Seq::<Seq<u8>>::empty());
            assert(self.writes@ =~= Seq::<Wrote>::empty());
            assert(old(self).sees_all(arks));
        }
        while i < frames.len()
            invariant
                i <= frames@.len(),
                seen <= writes@.len(),
                self.wf(),
                old(self).paused(*self),
                self@ == before.seeing_all(writes@, seen as int),
                self.apart == old(self).apart,
                writes@ == old(self).writes@,
                written == envelope::contents(frames@),
                written == framing::pieces(old(self).outbox.bytes()),
                super::terminated(old(self).outbox.bytes()),
                seen == filled(written.take(i as int)).len(),
                old(self).sees_all(arks),
                arks.len() == seen + 1,
                arks.last() == *self,
                self.outbox.bytes() == Seq::<u8>::empty(),
                old(self).untouched() ==> !old(self).misread(Divergence::Emitted) && !old(
                    self,
                ).misread(Divergence::Setup),
                forall|j: int|
                    0 <= j < frames@.len() ==> cobs::zero_free((#[trigger] frames@[j])@),
            decreases frames@.len() - i,
        {
            proof {
                assert(written.take(i + 1).drop_last() =~= written.take(i as int));
                assert(written.take(i + 1).last() == frames@[i as int]@);
                lemma_filled(written, i + 1);
            }
            if frames[i].len() > 0 {
                assert(old(self).written()[seen as int] == frames@[i as int]@) by {
                    assert(filled(written.take(i + 1))[seen as int] == frames@[i as int]@);
                }
                if seen == writes.len() {
                    proof {
                        old(self).lemma_stuck(arks, Divergence::Emitted);
                    }
                    return Err(Divergence::Emitted);
                }
                match self.see(&frames[i], writes[seen]) {
                    Ok(_) => {},
                    Err(divergence) => {
                        proof {
                            old(self).lemma_stuck(arks, divergence);
                        }
                        return Err(divergence);
                    },
                }
                proof {
                    old(self).lemma_sees_more(arks, *self);
                    arks = arks.push(*self);
                }
                seen = seen + 1;
            }
            i = i + 1;
        }
        assert(written.take(frames@.len() as int) =~= written);
        if seen != writes.len() {
            proof {
                old(self).lemma_stuck(arks, Divergence::Emitted);
            }
            return Err(Divergence::Emitted);
        }
        assert(old(self).ingests(*self)) by {
            reveal(Ark::ingests);
        }
        proof {
            lemma_seeing(before, writes@, writes@.len() as int);
            if old(self).untouched() {
                self.lemma_idle();
            }
        }
        Ok(())
    }

    /// Parses one frame the host wrote.
    fn see(&mut self, frame: &Vec<u8>, wrote: Wrote) -> (seen: Result<(), Divergence>)
        requires
            old(self).wf(),
            cobs::zero_free(frame@),
        ensures
            match seen {
                Ok(_) => old(self).saw(frame@, wrote, *final(self)),
                Err(Divergence::Setup) => {
                    &&& wrote == Wrote::Hello
                    &&& old(self)@.generation == u64::MAX
                },
                Err(divergence) => {
                    &&& divergence == Divergence::Emitted
                    &&& old(self).unseen(frame@, wrote)
                },
            },
            old(self).paused(*final(self)),
            final(self).apart == old(self).apart,
    {
        let packet = match unframe(frame.as_slice()) {
            Ok(packet) => packet,
            Err(_) => return Err(Divergence::Emitted),
        };
        match wrote {
            Wrote::Hello => {
                let hello = match handshake::read_hello(packet.as_slice()) {
                    Ok(hello) => hello,
                    Err(_) => return Err(Divergence::Emitted),
                };
                self.generation = match bump(self.generation) {
                    Ok(next) => next,
                    Err(divergence) => return Err(divergence),
                };
                self.latest_hello = Some(hello);
                Ok(())
            },
            Wrote::Ack(generation) => match self.ack(packet.as_slice()) {
                Some(answered) => if answered == generation {
                    Ok(())
                } else {
                    Err(Divergence::Emitted)
                },
                None => Err(Divergence::Emitted),
            },
            Wrote::Request(id) => {
                let mut session = match self.session.take() {
                    Some(session) => session,
                    None => return Err(Divergence::Emitted),
                };
                let message = match sealing::open(&mut session.receiver, packet.as_slice()) {
                    Ok(message) => message,
                    Err(_) => return Err(Divergence::Emitted),
                };
                self.session = Some(session);
                match read_tag(message.as_slice()) {
                    Some(found) => if found == id {
                        Ok(())
                    } else {
                        Err(Divergence::Emitted)
                    },
                    None => Err(Divergence::Emitted),
                }
            },
        }
    }

    /// Opens a host ack against the outstanding ArkHellos, establishing the session
    /// of the latest one it answers.
    fn ack(&mut self, packet: &[u8]) -> (answered: Option<u64>)
        requires
            old(self).wf(),
        ensures
            final(self).wf(),
            old(self).paused(*final(self)),
            *final(self) == (Ark {
                outstanding: final(self).outstanding,
                session: final(self).session,
                ..*old(self)
            }),
            match answered {
                Some(generation) => {
                    &&& final(self)@ == (Model { session: Some((generation, 0)), ..old(self)@ })
                    &&& exists|at: int|
                        {
                            &&& #[trigger] old(self).answered_at(packet@, at)
                            &&& old(self).outstanding@[at].generation == generation
                            &&& final(self).opened(
                                old(self).outstanding@[at],
                                packet@,
                                keys::xdsa_public(old(self).identity),
                            )
                            &&& final(self).outstanding@ == old(self).outstanding@.remove(at)
                        }
                },
                None => *final(self) == *old(self) && old(self).unanswered(packet@),
            },
    {
        let identity = self.identity.public_key();
        let mut i: usize = self.outstanding.len();
        while i > 0
            invariant
                *self == *old(self),
                self.wf(),
                i <= self.outstanding@.len(),
                identity == keys::xdsa_public(self.identity),
                forall|j: int|
                    i <= j < self.outstanding@.len() ==> handshake::ack_context(
                        packet@,
                        (#[trigger] self.outstanding@[j]).pending,
                        identity,
                    ) is None,
            decreases i,
        {
            i = i - 1;
            let pending = &self.outstanding[i].pending;
            if let Ok(receiver) = handshake::open_ack(
                &pending.key,
                &pending.host_signer,
                packet,
                &identity,
            ) {
                let Outstanding { generation, pending } = self.outstanding.remove(i);
                self.session = Some(
                    ArkSession { id: generation, sender: pending.sender, receiver, seq: 0 },
                );
                proof {
                    assert(old(self).answered_at(packet@, i as int));
                }
                return Some(generation);
            }
        }
        None
    }

    /// Applies the model's transition for a frame the host reads, settling the call
    /// in progress once the frame decides its result.
    fn consume(&mut self, frame: Frame) -> (consumed: Result<(), Divergence>)
        requires
            old(self).wf(),
            old(self).call != Call::Idle,
        ensures
            match consumed {
                Ok(_) => final(self).wf() && final(self)@ == old(self)@.consumed(frame),
                Err(divergence) => divergence == Divergence::Setup && old(self)@.host_seq
                    == u64::MAX,
            },
            old(self).recast(*final(self)),
            old(self).paused(*final(self)),
    {
        proof {
            reveal(Model::consumed);
        }
        match self.call {
            Call::Handshake { generation, stale } => {
                self.greet(frame, generation, stale);
                Ok(())
            },
            Call::Recv => self.receive(frame),
            Call::Idle => Ok(()),
        }
    }

    /// A handshake reads a frame.
    fn greet(&mut self, frame: Frame, generation: u64, stale: usize)
        requires
            old(self).wf(),
            old(self).call != Call::Idle,
        ensures
            final(self).wf(),
            final(self)@ == old(self)@.greeted(frame, generation, stale),
            old(self).recast(*final(self)),
            old(self).paused(*final(self)),
    {
        match frame {
            Frame::Undecodable => {
                self.settle(Expect::Failed(Kind::FrameDecoding));
                return ;
            },
            Frame::ArkHello { generation: answered, flaw } => {
                if answered == generation {
                    if flaw == Flaw::Attest {
                        self.settle(Expect::Failed(Kind::InvalidAttestation));
                    } else if flaw != Flaw::Intact {
                        self.settle(Expect::Failed(Kind::Handshake));
                    } else if self.broken {
                        // The ack never gets out on a broken transport
                        self.settle(Expect::Failed(Kind::Send));
                    } else {
                        self.host_session = Some(generation);
                        self.host_seq = 0;
                        self.writes.push(Wrote::Ack(generation));
                        self.settle(Expect::Done);
                    }
                    return ;
                }
            },
            _ => {},
        }
        // Anything else is skipped as stale, up to the bound
        if stale < MAX_STALE_FRAMES {
            self.call = Call::Handshake { generation, stale: stale + 1 };
        } else {
            self.settle(Expect::Failed(Kind::Handshake));
        }
    }

    /// A receive reads a frame.
    fn receive(&mut self, frame: Frame) -> (received: Result<(), Divergence>)
        requires
            old(self).wf(),
            old(self).call != Call::Idle,
        ensures
            match received {
                Ok(_) => final(self).wf() && final(self)@ == old(self)@.received(frame),
                Err(divergence) => divergence == Divergence::Setup && old(self)@.host_seq
                    == u64::MAX,
            },
            old(self).recast(*final(self)),
            old(self).paused(*final(self)),
    {
        match (self.host_session, frame) {
            (_, Frame::Dropped) => {
                self.host_session = None;
                self.settle(Expect::Failed(Kind::SessionReset));
            },
            (_, Frame::Undecodable) => {
                self.host_session = None;
                self.settle(Expect::Failed(Kind::FrameDecoding));
            },
            (Some(id), Frame::Sealed { session, seq, tag, garbage }) => {
                if session == id && seq == self.host_seq {
                    self.host_seq = match bump(self.host_seq) {
                        Ok(next) => next,
                        Err(divergence) => return Err(divergence),
                    };
                    self.settle(
                        if garbage {
                            Expect::Failed(Kind::PacketDecoding)
                        } else {
                            Expect::Message(tag as u64)
                        },
                    );
                } else {
                    self.host_session = None;
                    self.settle(Expect::Failed(Kind::Encryption));
                }
            },
            // Anything the session cannot open ends it
            _ => {
                self.host_session = None;
                self.settle(Expect::Failed(Kind::Encryption));
            },
        }
        Ok(())
    }

    /// Applies a read failing, which ends the call in progress with the error, a
    /// session not surviving it on the host's side.
    fn interrupt(&mut self, kind: Kind)
        requires
            old(self).wf(),
        ensures
            final(self).wf(),
            final(self)@ == old(self)@.interrupted(kind),
            final(self).call == Call::Idle,
            old(self).recast(*final(self)),
            old(self).paused(*final(self)),
    {
        match self.call {
            Call::Handshake { .. } => self.settle(Expect::Failed(kind)),
            Call::Recv => {
                self.host_session = None;
                self.settle(Expect::Failed(kind));
            },
            Call::Idle => {},
        }
    }

    /// Records the predicted result of the call in progress.
    fn settle(&mut self, expect: Expect)
        requires
            old(self).wf(),
        ensures
            final(self).wf(),
            final(self)@ == old(self)@.settled(expect),
            old(self).recast(*final(self)),
            old(self).paused(*final(self)),
    {
        self.expect = Some(expect);
        self.call = Call::Idle;
    }

    /// The totals with the result of a call counted.
    spec fn tallied(self, result: Expect, handshake: bool) -> Summary {
        let totals = self.summary;
        match result {
            Expect::Failed(kind) => if !handshake && kind == Kind::SessionReset {
                Summary { resets: (totals.resets + 1) as usize, ..totals }
            } else {
                Summary { failures: (totals.failures + 1) as usize, ..totals }
            },
            _ => if handshake {
                Summary { handshakes: (totals.handshakes + 1) as usize, ..totals }
            } else {
                Summary { messages: (totals.messages + 1) as usize, ..totals }
            },
        }
    }

    /// The total that the result of a call counts towards cannot go up any more.
    spec fn overflows(self, result: Expect, handshake: bool) -> bool {
        match result {
            Expect::Failed(kind) => if !handshake && kind == Kind::SessionReset {
                self.summary.resets == usize::MAX
            } else {
                self.summary.failures == usize::MAX
            },
            _ => if handshake {
                self.summary.handshakes == usize::MAX
            } else {
                self.summary.messages == usize::MAX
            },
        }
    }

    /// A call that came to a result ends. The result has to be the predicted one, which
    /// is counted. The Ark then looks at what the host wrote.
    spec fn ends(
        self,
        result: Expect,
        handshake: bool,
        after: Ark<'a>,
        finished: Result<(), Divergence>,
    ) -> bool {
        &&& after.apart == self.apart
        &&& if self.expect != Some(result) {
            finished == Err::<(), Divergence>(Divergence::Surfaced)
        } else if self.overflows(result, handshake) {
            finished == Err::<(), Divergence>(Divergence::Setup)
        } else {
            let counted = Ark {
                expect: None,
                summary: self.tallied(result, handshake),
                ..self
            };
            match finished {
                Ok(_) => counted.ingests(after),
                Err(divergence) => counted.misread(divergence),
            }
        }
    }

    /// Checks a finished call against the model's prediction, counts it and takes in
    /// whatever the host wrote during it.
    #[verifier::spinoff_prover]
    #[verifier::rlimit(30)]
    fn finish(&mut self, result: Expect, handshake: bool) -> (finished: Result<(), Divergence>)
        requires
            old(self).wf(),
        ensures
            match finished {
                Ok(_) => {
                    &&& final(self).wf()
                    &&& old(self)@.call == Call::Idle
                    &&& old(self)@.expect == Some(result)
                    &&& final(self)@ == old(self)@.counted(handshake)
                },
                Err(Divergence::Surfaced) => old(self)@.expect != Some(result),
                Err(_) => old(self)@.expect == Some(result),
            },
            old(self).ends(result, handshake, *final(self), finished),
            old(self).expect == Some(result) && result is Failed && old(self).untouched() && old(
                self,
            ).has_room() ==> finished is Ok && final(self).untouched(),
            old(self).paused(*final(self)),
            final(self).apart == old(self).apart,
    {
        let ghost easy = self.untouched();
        proof {
            reveal(Model::counted);
        }
        match self.expect {
            Some(expected) => if expected != result {
                return Err(Divergence::Surfaced);
            },
            None => return Err(Divergence::Surfaced),
        }
        self.expect = None;
        let failed = matches!(result, Expect::Failed(_));
        let count = if failed && !handshake && result == Expect::Failed(Kind::SessionReset) {
            &mut self.summary.resets
        } else if failed {
            &mut self.summary.failures
        } else if handshake {
            &mut self.summary.handshakes
        } else {
            &mut self.summary.messages
        };
        match bump_total(*count) {
            Ok(next) => *count = next,
            Err(divergence) => return Err(divergence),
        }
        proof {
            if easy {
                old(self).lemma_still_tidy(*self, 0);
            }
        }
        self.ingest()
    }

    /// Where the script leads from here, a call being in progress.
    spec fn ahead(self) -> Run {
        reading(self@, self.steps@, self.next as int)
    }

    /// The script stands somewhere further on, or where it stood, and leads to the same
    /// end.
    spec fn led(self, after: Ark<'a>) -> bool {
        &&& after.wf()
        &&& after.steps == self.steps
        &&& after.limit == self.limit
        &&& after.next >= self.next
        &&& after.ahead() == self.ahead()
    }

    /// The Ark after each of a number of steps that put nothing in front of the host, a
    /// call being in progress.
    #[verifier::opaque]
    spec fn skips(self, arks: Seq<Ark<'a>>) -> bool {
        &&& arks.len() > 0
        &&& arks[0] == self
        &&& forall|j: int| 0 <= j < arks.len() - 1 ==> (#[trigger] arks[j]).steps_on(arks[j + 1])
    }

    /// The step that the script stands at is executed while a read finds no frame.
    spec fn steps_on(self, after: Ark<'a>) -> bool {
        let step = self.steps@[self.next as int];
        let at = Ark { next: (self.next + 1) as usize, ..self };
        &&& self.bytes@.len() == 0
        &&& self.frames@.len() == 0
        &&& self.next < self.limit
        &&& !step.calls()
        &&& !(step is Yield)
        &&& at.executes(step, after)
        &&& after@ == at@.executed(step)
        &&& after.wf()
    }

    /// One more step is executed.
    proof fn lemma_skips_on(self, arks: Seq<Ark<'a>>, next: Ark<'a>)
        requires
            self.skips(arks),
            arks.last().steps_on(next),
        ensures
            self.skips(arks.push(next)),
    {
        reveal(Ark::skips);
        let longer = arks.push(next);
        assert forall|j: int| 0 <= j < longer.len() - 1 implies (#[trigger] longer[j]).steps_on(
            longer[j + 1],
        ) by {
            if j < arks.len() - 1 {
                assert(arks[j].steps_on(arks[j + 1]));
            }
        }
    }

    /// The frame queued first is handed to the host, the model having consumed it.
    spec fn takes(self, front: Seq<u8>, after: Ark<'a>) -> bool {
        &&& self.bytes@.len() == 0
        &&& self.frames@.len() > 0
        &&& front == self.packets@[0]@
        &&& after.packets@ == self.packets@.skip(1)
        &&& after@ == (Model {
            queue: self@.queue.skip(1),
            ..self@.consumed(self@.queue[0])
        })
        &&& (Ark {
            frames: after.frames,
            packets: after.packets,
            bytes: after.bytes,
            ..self
        }).recast(after)
    }

    /// A read finds a frame: what is left of the one in progress, the next one queued,
    /// or the one that a step further on in the script produces.
    #[verifier::opaque]
    spec fn supplies(self, front: Seq<u8>, after: Ark<'a>) -> bool {
        if self.bytes@.len() > 0 {
            &&& front == self.bytes@
            &&& after == (Ark { bytes: after.bytes, ..self })
        } else {
            exists|arks: Seq<Ark<'a>>| #[trigger]
                self.skips(arks) && arks.last().takes(front, after)
        }
    }

    /// A frame is found however much of it is handed over.
    proof fn lemma_supplies_split(self, front: Seq<u8>, queue: Ark<'a>, after: Ark<'a>)
        requires
            self.supplies(front, queue),
            after == (Ark { bytes: after.bytes, ..queue }),
        ensures
            self.supplies(front, after),
    {
        reveal(Ark::supplies);
        if self.bytes@.len() == 0 {
            let arks = choose|arks: Seq<Ark<'a>>| #[trigger]
                self.skips(arks) && arks.last().takes(front, queue);
            assert(after@ == queue@);
            assert(arks.last().takes(front, after));
        }
    }

    /// There is less left to be read, or less of the script.
    spec fn lessens(self, after: Ark<'a>) -> bool {
        ||| after.next > self.next
        ||| after.next == self.next && after.frames@.len() < self.frames@.len()
        ||| after.next == self.next && after.frames@.len() == self.frames@.len()
            && after.bytes@.len() < self.bytes@.len()
    }

    /// A read gets bytes, all of a frame or as many of it as one read hands over.
    spec fn hands(self, bytes: Seq<u8>, after: Ark<'a>) -> bool {
        &&& self.led(after)
        &&& bytes.len() > 0
        &&& self.supplies(bytes + after.bytes@, after)
        &&& self.lessens(after)
        &&& if after.chunk == 0 {
            after.bytes@.len() == 0
        } else {
            &&& bytes.len() <= after.chunk
            &&& after.bytes@.len() > 0 ==> bytes.len() == after.chunk
        }
    }

    /// The model has the call in progress fail, as the script stands. Behind a yield it
    /// goes on.
    spec fn gives_up(self, kind: Kind, after: Ark<'a>) -> bool {
        &&& self.bytes@.len() == 0
        &&& self.frames@.len() == 0
        &&& after@ == self@.interrupted(kind)
        &&& (Ark { next: after.next, ..self }).recast(after)
        &&& if self.next == self.limit {
            kind == Kind::Terminated && after.next == self.next
        } else if self.steps@[self.next as int].calls() {
            kind == Kind::Recv && after.next == self.next
        } else {
            &&& self.steps@[self.next as int] is Yield
            &&& kind == Kind::Recv
            &&& after.next == self.next + 1
        }
    }

    /// A read fails, the script having no more frames for the call in progress: it
    /// ends, makes another call or yields.
    spec fn fails(self, kind: Kind, after: Ark<'a>) -> bool {
        &&& self.led(after)
        &&& exists|arks: Seq<Ark<'a>>| #[trigger]
            self.skips(arks) && arks.last().gives_up(kind, after)
        &&& self.bytes@.len() == 0
        &&& self.call != Call::Idle
        &&& self.frames@.len() == 0
        &&& after.bytes@.len() == 0
        &&& after.frames@.len() == 0
        &&& after.call == Call::Idle
        &&& after.expect == Some(Expect::Failed(kind))
        &&& match kind {
            Kind::Terminated => after.next == after.limit,
            Kind::Recv => {
                ||| after.next < after.limit && after.steps@[after.next as int].calls()
                ||| after.next > self.next && after.steps@[after.next - 1] is Yield
            },
            _ => false,
        }
    }

    /// A read diverges from the model: the call in progress was to be over, the host
    /// opened more packets than can be counted, or a step further on in the script
    /// cannot be executed.
    spec fn diverges(self, divergence: Divergence, after: Ark<'a>) -> bool {
        &&& self.bytes@.len() == 0
        &&& exists|arks: Seq<Ark<'a>>|
            {
                &&& #[trigger] self.skips(arks)
                &&& after.apart == arks.last().apart
                &&& if self.call == Call::Idle {
                    divergence == Divergence::Surfaced
                } else {
                    ||| divergence == Divergence::Setup && self@.host_seq == u64::MAX
                    ||| self.frames@.len() == 0 && arks.last().halts(divergence)
                }
            }
    }

    /// The step that the script stands at cannot be executed.
    spec fn halts(self, divergence: Divergence) -> bool {
        &&& self.next < self.limit
        &&& (Ark { next: (self.next + 1) as usize, ..self }).stalls(
            self.steps@[self.next as int],
            divergence,
        )
    }

    /// The Ark after each of a number of reads, which get the bytes given.
    #[verifier::opaque]
    spec fn serves(self, chunks: Seq<Seq<u8>>, arks: Seq<Ark<'a>>) -> bool {
        &&& arks.len() == chunks.len() + 1
        &&& arks[0] == self
        &&& forall|j: int|
            0 <= j < chunks.len() ==> (#[trigger] arks[j]).hands(chunks[j], arks[j + 1])
    }

    /// Another read gets bytes.
    proof fn lemma_serves_more(
        self,
        chunks: Seq<Seq<u8>>,
        arks: Seq<Ark<'a>>,
        bytes: Seq<u8>,
        next: Ark<'a>,
    )
        requires
            self.serves(chunks, arks),
            arks.last().hands(bytes, next),
        ensures
            self.serves(chunks.push(bytes), arks.push(next)),
    {
        reveal(Ark::serves);
        let longer = arks.push(next);
        let read = chunks.push(bytes);
        assert forall|j: int| 0 <= j < read.len() implies (#[trigger] longer[j]).hands(
            read[j],
            longer[j + 1],
        ) by {
            if j < chunks.len() {
                assert(arks[j].hands(chunks[j], arks[j + 1]));
            }
        }
    }

    /// Serves a read of the host: the frame in progress in pieces if capped, the
    /// next frame queued, or what the script produces next. A call, a yield or the
    /// end of the script fails the read instead.
    #[verifier::spinoff_prover]
    #[verifier::rlimit(30)]
    fn feed(&mut self) -> (fed: Result<Fed, Divergence>)
        requires
            old(self).wf(),
        ensures
            final(self).steps == old(self).steps,
            final(self).limit == old(self).limit,
            final(self).next >= old(self).next,
            match fed {
                Ok(Fed::Bytes(bytes)) => old(self).hands(bytes@, *final(self)),
                Ok(Fed::Failed(kind)) => old(self).fails(kind, *final(self)),
                Err(divergence) => old(self).diverges(divergence, *final(self)),
            },
            final(self).apart@ ==> old(self).apart@,
            old(self).bytes@.len() == 0 && old(self).call != Call::Idle && old(self).smooth() ==> {
                &&& fed is Ok
                &&& final(self).smooth()
                &&& fed matches Ok(Fed::Bytes(bytes)) ==> exists|frame: Frame|
                    fitting(frame, bytes@ + final(self).bytes@) && #[trigger] steers(
                        old(self).call,
                        frame,
                        final(self).call,
                        final(self).expect,
                    )
            },
    {
        let ghost easy = old(self).bytes@.len() == 0 && old(self).call != Call::Idle && old(
            self,
        ).smooth();
        let ghost mut taken = Frame::Dropped;
        let ghost mut arks: Seq<Ark<'a>> = seq![*self];
        proof {
            reveal(Ark::skips);
            reveal(Ark::supplies);
        }
        while self.bytes.len() == 0
            invariant
                old(self).led(*self),
                self.apart@ ==> old(self).apart@,
                self@.host_seq == u64::MAX && self.call != Call::Idle && self.bytes@.len() == 0
                    ==> old(self)@.host_seq == u64::MAX,
                self.bytes@.len() == 0 ==> {
                    &&& self.call == old(self).call
                    &&& old(self).bytes@.len() == 0
                    &&& old(self).skips(arks)
                    &&& arks.last() == *self
                    &&& if self.next == old(self).next {
                        *self == *old(self)
                    } else {
                        old(self).frames@.len() == 0
                    }
                },
                self.bytes@.len() > 0 ==> old(self).supplies(self.bytes@, *self),
                self.bytes@.len() > 0 ==> *self == *old(self) || self.next > old(self).next
                    || self.next == old(self).next && self.frames@.len() < old(
                    self,
                ).frames@.len(),
                easy ==> self.smooth(),
                easy == (old(self).bytes@.len() == 0 && old(self).call != Call::Idle && old(
                    self,
                ).smooth()),
                easy && self.bytes@.len() > 0 ==> {
                    &&& fitting(taken, self.bytes@)
                    &&& steers(old(self).call, taken, self.call, self.expect)
                },
            decreases self.limit - self.next, self.frames@.len(),
        {
            // A settled call has no business reading on
            if self.call == Call::Idle {
                return Err(Divergence::Surfaced);
            }
            let ghost before = *self;
            if self.frames.len() > 0 {
                let frame = self.frames.remove(0);
                let packet = self.packets.remove(0);
                proof {
                    assert(self.frames@ =~= before@.queue.skip(1));
                    assert(self.packets@ =~= before.packets@.skip(1));
                    assert(frame == before@.queue[0]);
                    reveal(Model::consumed);
                }
                match self.consume(frame) {
                    Ok(_) => {},
                    Err(divergence) => return Err(divergence),
                }
                assert(self@ == (Model {
                    queue: before@.queue.skip(1),
                    ..before@.consumed(before@.queue[0])
                }));
                self.bytes = packet;
                proof {
                    taken = frame;
                    assert(fitting(before.frames@[0], before.packets@[0]@));
                    if easy {
                        before.lemma_still_tidy(*self, 0);
                    }
                }
                assert(before.takes(self.bytes@, *self));
                assert(old(self).supplies(self.bytes@, *self)) by {
                    reveal(Ark::supplies);
                }
                continue ;
            }
            if self.next == self.limit {
                self.interrupt(Kind::Terminated);
                proof {
                    assert(before.gives_up(Kind::Terminated, *self));
                    if easy {
                        before.lemma_still_tidy(*self, 0);
                    }
                }
                return Ok(Fed::Failed(Kind::Terminated));
            }
            let step: &Step = &self.steps[self.next];
            if step.is_call() {
                self.interrupt(Kind::Recv);
                proof {
                    assert(before.gives_up(Kind::Recv, *self));
                    if easy {
                        before.lemma_still_tidy(*self, 0);
                    }
                }
                return Ok(Fed::Failed(Kind::Recv));
            }
            if let Step::Yield = step {
                self.interrupt(Kind::Recv);
                self.next = self.next + 1;
                proof {
                    assert(before.gives_up(Kind::Recv, *self));
                    if easy {
                        before.lemma_still_tidy(*self, 0);
                    }
                }
                return Ok(Fed::Failed(Kind::Recv));
            }
            self.next = self.next + 1;
            let ghost stopped = *self;
            proof {
                if easy {
                    before.lemma_still_tidy(stopped, 0);
                    assert(hellos(stopped.writes@)) by {
                        reveal(Ark::tidy);
                    }
                    lemma_smooth_step(stopped@, *step);
                }
            }
            match self.execute(step) {
                Ok(_) => {},
                Err(divergence) => {
                    assert(before.halts(divergence));
                    return Err(divergence);
                },
            }
            proof {
                lemma_step_keeps_call(stopped@, *step);
                assert(before.steps_on(*self));
                old(self).lemma_skips_on(arks, *self);
                arks = arks.push(*self);
            }
        }
        let size: usize = self.bytes.len();
        let count: usize = if self.chunk > 0 && self.chunk < size {
            self.chunk
        } else {
            size
        };
        let ghost queue = *self;
        let rest = self.bytes.split_off(count);
        let bytes = replace(&mut self.bytes, rest);
        proof {
            assert(bytes@ + self.bytes@ =~= queue.bytes@);
            assert(self@ == queue@);
            old(self).lemma_supplies_split(queue.bytes@, queue, *self);
            if easy {
                queue.lemma_still_tidy(*self, 0);
                assert(steers(old(self).call, taken, self.call, self.expect));
            }
        }
        Ok(Fed::Bytes(bytes))
    }
}

/// Keys of strangers: of another host, of another Ark, and one that another hello
/// announced.
pub struct Strangers {
    pub host: VerifyingKey,
    pub signer: SigningKey,
    pub crypto: EncryptionKey,
}

impl Strangers {
    /// Whether the stranger that takes the place of the right key in an ArkHello with a flaw
    /// is one.
    pub open spec fn apart(
        self,
        identity: SigningKey,
        hello: (VerifyingKey, EncryptionKey),
        flaw: Flaw,
    ) -> bool {
        match flaw {
            Flaw::Auth => self.host != hello.0,
            Flaw::Signer => keys::xdsa_public(self.signer) != keys::xdsa_public(identity),
            Flaw::Stale => self.crypto != hello.1,
            _ => true,
        }
    }
}

/// What an ArkHello with a flaw holds.
pub open spec fn hello_list(
    identity: SigningKey,
    attest: Seq<u8>,
    flaw: Flaw,
    pending: Pending,
    list: Seq<Seq<u8>>,
) -> bool {
    match flaw {
        Flaw::Payload => list == seq![seq![1u8, 2u8, 3u8]],
        Flaw::Key => list.len() == 3 && list[0] == attest && list[1] == Seq::new(
            keys::ENCRYPTION_KEY_SIZE as nat,
            |i: int| 0xffu8,
        ) && list[2] == keys::sender_encap(pending.sender),
        _ => {
            &&& list.len() == 3
            &&& flaw != Flaw::Attest ==> list[0] == attest
            &&& flaw == Flaw::Attest ==> super::cloud_issued(
                list[0],
                ""@,
                ""@,
                0,
                1,
                keys::xdsa_public(identity),
                identity,
            )
            &&& list[1] == keys::xhpke_bytes(keys::xhpke_public(pending.key))
            &&& list[2] == if flaw == Flaw::Encap {
                seq![0x42u8, 0x42u8, 0x42u8]
            } else {
                keys::sender_encap(pending.sender)
            }
        },
    }
}

/// Envelope of a crafted ArkHello before a byte of it may be flipped: what it holds,
/// whose keys it authenticates, who signed it and whom it is sealed to, strangers taking
/// the place of those that the flaw names.
pub open spec fn misgreets(
    identity: SigningKey,
    attest: Seq<u8>,
    hello: (VerifyingKey, EncryptionKey),
    flaw: Flaw,
    pending: Pending,
    others: Strangers,
    packet: Seq<u8>,
    list: Seq<Seq<u8>>,
) -> bool {
    &&& envelope::sealed(
        packet,
        envelope::cbor_list(list),
        handshake::key_pair(
            if flaw == Flaw::Auth {
                others.host
            } else {
                hello.0
            },
            hello.1,
        ),
        if flaw == Flaw::Signer {
            others.signer
        } else {
            identity
        },
        if flaw == Flaw::Stale {
            others.crypto
        } else {
            hello.1
        },
        handshake::CRYPTO_DOMAIN_WIRE@,
        None,
    )
    &&& hello_list(identity, attest, flaw, pending, list)
}

/// Whether a packet is an ArkHello answering a hello, with a flaw or without, made of the
/// keys given.
pub open spec fn crafted_by(
    identity: SigningKey,
    attest: Seq<u8>,
    hello: (VerifyingKey, EncryptionKey),
    flaw: Flaw,
    pending: Pending,
    others: Strangers,
    packet: Seq<u8>,
) -> bool {
    &&& pending.host_signer == hello.0
    &&& exists|clean: Seq<u8>, list: Seq<Seq<u8>>|
        {
            &&& #[trigger] misgreets(
                identity,
                attest,
                hello,
                flaw,
                pending,
                others,
                clean,
                list,
            )
            &&& packet == if flaw == Flaw::Tampered {
                super::tampered(clean)
            } else {
                clean
            }
        }
}

/// Whether a packet is an ArkHello answering a hello, with a flaw or without, which sets up
/// a context of the Ark's, made of the keys drawn.
pub open spec fn crafted(
    identity: SigningKey,
    attest: Seq<u8>,
    hello: (VerifyingKey, EncryptionKey),
    flaw: Flaw,
    pending: Pending,
    others: Strangers,
    packet: Seq<u8>,
) -> bool {
    &&& keys::xhpke_set_up(
        pending.sender,
        hello.1,
        handshake::CRYPTO_DOMAIN_WIRE_ARK_TO_HOST@,
    )
    &&& sealing::sender_sequence(pending.sender) == 0
    &&& keys::sender_encap(pending.sender).len() == keys::ENCAP_KEY_SIZE
    &&& crafted_by(identity, attest, hello, flaw, pending, others, packet)
}

/// Keys drawn for an ArkHello: the one that it announces, a context of the Ark's with its
/// encapsulated key, and the keys of strangers.
struct HelloDraw {
    key: DecryptionKey,
    sender: SealingContext,
    encap: Vec<u8>,
    others: Strangers,
}

impl HelloDraw {
    /// The context sets up an exchange with a key of the host's.
    spec fn suits(self, crypto: EncryptionKey) -> bool {
        &&& keys::xhpke_set_up(
            self.sender,
            crypto,
            handshake::CRYPTO_DOMAIN_WIRE_ARK_TO_HOST@,
        )
        &&& sealing::sender_sequence(self.sender) == 0
        &&& self.encap@ == keys::sender_encap(self.sender)
        &&& self.encap@.len() == keys::ENCAP_KEY_SIZE
    }

    /// Draws the keys.
    fn generate(crypto: &EncryptionKey) -> (drawn: HelloDraw)
        ensures
            drawn.suits(*crypto),
    {
        proof {
            handshake::lemma_domains();
        }
        let key = DecryptionKey::generate();
        let (sender, encap) = keys::new_sender(
            crypto,
            handshake::CRYPTO_DOMAIN_WIRE_ARK_TO_HOST,
        ).unwrap();
        let others = Strangers {
            host: SigningKey::generate().public_key(),
            signer: SigningKey::generate(),
            crypto: DecryptionKey::generate().public_key(),
        };
        HelloDraw { key, sender, encap, others }
    }
}

/// Crafts an ArkHello answering a HostHello, flawed as requested: sealed to a
/// stranger, with a flipped byte, bound to another host's key, signed by a
/// stranger, holding something else than an ArkHello, an invalid encryption key, a
/// short encapsulated key, or the attestation of a cloud signer. The keys are given: the
/// one that it announces, the context that it sets up and those of strangers.
pub fn craft_hello_with(
    identity: &SigningKey,
    attestation: &Attestation,
    hello: &(VerifyingKey, EncryptionKey),
    flaw: Flaw,
    key: DecryptionKey,
    sender: SealingContext,
    encap: Vec<u8>,
    others: &Strangers,
) -> (made: Option<(Vec<u8>, Pending)>)
    requires
        encap@ == keys::sender_encap(sender),
        encap@.len() == keys::ENCAP_KEY_SIZE,
    ensures
        attestation@.len() <= u32::MAX - handshake::HELLO_OVERHEAD ==> made is Some,
        made matches Some((packet, pending)) ==> {
            &&& pending.key == key
            &&& pending.sender == sender
            &&& crafted_by(
                *identity,
                attestation@,
                *hello,
                flaw,
                pending,
                *others,
                packet@,
            )
            &&& attestation@.len() <= TOKEN_OVERHEAD ==> packet@.len() <= TOKEN_OVERHEAD
                + handshake::HELLO_OVERHEAD
        },
{
    let pending = Pending { host_signer: hello.0.clone(), key, sender };
    let items = hello_items(identity, attestation, &pending, encap, flaw);
    let ghost list = envelope::contents(items@);
    let payload = envelope::encode_list(items);
    let bound = if flaw == Flaw::Auth {
        &others.host
    } else {
        &hello.0
    };
    let auth = handshake::encode_keys(bound, &hello.1);
    let signer = if flaw == Flaw::Signer {
        &others.signer
    } else {
        identity
    };
    let recipient = if flaw == Flaw::Stale {
        &others.crypto
    } else {
        &hello.1
    };
    match handshake::seal_message(payload, auth, signer, recipient, None) {
        Ok(sealed) => {
            let ghost clean = sealed@;
            let mut packet = sealed;
            if flaw == Flaw::Tampered {
                tamper(&mut packet);
            }
            assert(misgreets(
                *identity,
                attestation@,
                *hello,
                flaw,
                pending,
                *others,
                clean,
                list,
            ));
            Some((packet, pending))
        },
        Err(_) => None,
    }
}

/// Contents of a crafted ArkHello.
fn hello_items(
    identity: &SigningKey,
    attestation: &Attestation,
    pending: &Pending,
    encap: Vec<u8>,
    flaw: Flaw,
) -> (items: Vec<Vec<u8>>)
    requires
        encap@ == keys::sender_encap(pending.sender),
        encap@.len() == keys::ENCAP_KEY_SIZE,
    ensures
        hello_list(*identity, attestation@, flaw, *pending, envelope::contents(items@)),
        envelope::list_bound(envelope::contents(items@)) + envelope::MAX_OVERHEAD <= (
        if attestation@.len() <= TOKEN_OVERHEAD {
            TOKEN_OVERHEAD as int
        } else {
            attestation@.len() as int
        }) + handshake::HELLO_OVERHEAD,
{
    proof {
        reveal_with_fuel(envelope::list_bound, 4);
    }
    let mut items: Vec<Vec<u8>> = Vec::new();
    if flaw == Flaw::Payload {
        let other: Vec<u8> = vec![1u8, 2u8, 3u8];
        assert(other@ =~= seq![1u8, 2u8, 3u8]);
        items.push(other);
        proof {
            let list = envelope::contents(items@);
            assert(list =~= seq![seq![1u8, 2u8, 3u8]]);
            assert(list.drop_last() =~= Seq::<Seq<u8>>::empty());
        }
        return items;
    }
    let attest = if flaw == Flaw::Attest {
        cloud_attestation(identity)
    } else {
        attestation.clone().into_bytes()
    };
    let crypto = if flaw == Flaw::Key {
        let invalid: Vec<u8> = vec![0xffu8; keys::ENCRYPTION_KEY_SIZE];
        assert(invalid@ =~= Seq::new(keys::ENCRYPTION_KEY_SIZE as nat, |i: int| 0xffu8));
        invalid
    } else {
        keys::encryption_key_bytes(&pending.key.public_key())
    };
    let encap = if flaw == Flaw::Encap {
        let short: Vec<u8> = vec![0x42u8, 0x42u8, 0x42u8];
        assert(short@ =~= seq![0x42u8, 0x42u8, 0x42u8]);
        short
    } else {
        encap
    };
    let ghost list = seq![attest@, crypto@, encap@];
    items.push(attest);
    items.push(crypto);
    items.push(encap);
    proof {
        assert(envelope::contents(items@) =~= list);
        assert(list.drop_last() =~= seq![list[0], list[1]]);
        assert(list.drop_last().drop_last() =~= seq![list[0]]);
        assert(list.drop_last().drop_last().drop_last() =~= Seq::<Seq<u8>>::empty());
    }
    items
}

/// Kind of error that the model predicts a host error as, if it does any.
pub open spec fn kind_of(error: Error) -> Option<Kind> {
    match error {
        Error::FrameDecodingFailed(_) => Some(Kind::FrameDecoding),
        Error::SendFailed(_) => Some(Kind::Send),
        Error::RecvFailed(_) => Some(Kind::Recv),
        Error::Terminated => Some(Kind::Terminated),
        Error::SessionReset => Some(Kind::SessionReset),
        Error::InvalidAttestation => Some(Kind::InvalidAttestation),
        Error::HandshakeFailed(_) => Some(Kind::Handshake),
        Error::EncryptionFailed(_) => Some(Kind::Encryption),
        _ => None,
    }
}

/// Maps a host error onto the kind the model predicts, if it predicts any.
pub fn kind(error: Error) -> (kind: Option<Kind>)
    ensures
        kind == kind_of(error),
{
    match error {
        Error::FrameDecodingFailed(_) => Some(Kind::FrameDecoding),
        Error::SendFailed(_) => Some(Kind::Send),
        Error::RecvFailed(_) => Some(Kind::Recv),
        Error::Terminated => Some(Kind::Terminated),
        Error::SessionReset => Some(Kind::SessionReset),
        Error::InvalidAttestation => Some(Kind::InvalidAttestation),
        Error::HandshakeFailed(_) => Some(Kind::Handshake),
        Error::EncryptionFailed(_) => Some(Kind::Encryption),
        _ => None,
    }
}

/// Result of a call that fails with an error.
spec fn failure(error: Error) -> Result<Expect, Divergence> {
    match kind_of(error) {
        Some(kind) => Ok(Expect::Failed(kind)),
        None => Err(Divergence::Surfaced),
    }
}

/// Result of a call that failed with an error.
fn failed(error: Error) -> (result: Result<Expect, Divergence>)
    ensures
        result == failure(error),
{
    match kind(error) {
        Some(kind) => Ok(Expect::Failed(kind)),
        None => Err(Divergence::Surfaced),
    }
}

/// Writes an output of the host and reports the outcome.
fn write(host: &mut HostSide, ark: &mut Ark, bytes: Vec<u8>) -> (written: bool)
    requires
        old(ark).wf(),
        old(host).writing(),
    ensures
        written == !old(ark).broken,
        final(ark).outbox.bytes() == (if written {
            old(ark).outbox.bytes() + bytes@
        } else {
            old(ark).outbox.bytes()
        }),
        final(ark).wf(),
        final(ark)@ == old(ark)@,
        old(ark).paused(*final(ark)),
        *final(ark) == (Ark { outbox: final(ark).outbox, ..*old(ark) }),
        !final(host).writing(),
        final(host).resync() == !written,
        final(host).input() == old(host).input(),
        final(host).phase() == (if !written {
            side_host::Phase::Idle
        } else {
            match old(host).phase() {
                side_host::Phase::Acked(session) => side_host::Phase::Established(session),
                phase => phase,
            }
        }),
{
    let written = ark.outbox.write(bytes.as_slice()).is_ok();
    host.sent(written);
    written
}

/// Whether the same frame comes first in two inputs, the same input behind it.
spec fn level(left: framing::Input, right: framing::Input) -> bool {
    let left = framing::past_oversized(left);
    let right = framing::past_oversized(right);
    &&& framing::next_item(left) == framing::next_item(right)
    &&& framing::after_item(left) == framing::after_item(right)
}

/// Whether the same frame comes first in two inputs, whatever arrives behind them.
spec fn in_line(left: framing::Input, right: framing::Input) -> bool {
    forall|more: Seq<u8>| #[trigger]
        level(framing::extended(left, more), framing::extended(right, more))
}

/// Input that nothing was read behind is in line with itself.
proof fn lemma_in_line(input: framing::Input)
    ensures
        in_line(framing::extended(input, framing::joined(Seq::empty())), input),
{
    framing::lemma_extends(input, Seq::empty(), Seq::empty());
}

/// Inputs that are in line are level.
proof fn lemma_level(left: framing::Input, right: framing::Input)
    requires
        in_line(left, right),
    ensures
        level(left, right),
{
    framing::lemma_extends(left, Seq::empty(), Seq::empty());
    framing::lemma_extends(right, Seq::empty(), Seq::empty());
    assert(level(
        framing::extended(left, Seq::empty()),
        framing::extended(right, Seq::empty()),
    ));
}

/// A reader that has looked for a frame in vain stays in line with what was read.
proof fn lemma_feed_in_line(
    start: framing::Input,
    chunks: Seq<Seq<u8>>,
    input: framing::Input,
    bytes: Seq<u8>,
)
    requires
        in_line(framing::extended(start, framing::joined(chunks)), input),
        framing::next_item(framing::past_oversized(input)) is None,
    ensures
        in_line(
            framing::extended(start, framing::joined(chunks.push(bytes))),
            framing::extended(
                framing::after_item(framing::past_oversized(input)),
                bytes,
            ),
        ),
{
    let before = framing::extended(start, framing::joined(chunks));
    let after = framing::extended(start, framing::joined(chunks.push(bytes)));
    let rest = framing::after_item(framing::past_oversized(input));
    framing::lemma_joined(chunks, bytes);
    framing::lemma_extends(start, framing::joined(chunks), bytes);
    assert forall|more: Seq<u8>| #[trigger]
        level(
            framing::extended(after, more),
            framing::extended(framing::extended(rest, bytes), more),
        ) by {
        framing::lemma_extends(before, bytes, more);
        framing::lemma_extends(rest, bytes, more);
        framing::lemma_skipping_continues(input, bytes + more);
        assert(level(
            framing::extended(before, bytes + more),
            framing::extended(input, bytes + more),
        ));
    }
}

/// Whether the host has no handshake in progress and no output outstanding.
spec fn at_rest(host: HostSide) -> bool {
    &&& !host.writing()
    &&& host.phase() is Idle || host.phase() is Established
}

/// Checks that the host has a session exactly when the model says so. An oversized
/// message is refused before sealing, so it probes the session without any frame
/// going out.
fn check_session(host: &mut HostSide, established: bool) -> (checked: Result<(), Divergence>)
    requires
        at_rest(*old(host)),
    ensures
        if established == (old(host).phase() is Established) {
            checked is Ok
        } else {
            checked == Err::<(), Divergence>(Divergence::Session)
        },
        at_rest(*final(host)),
        final(host).phase() == old(host).phase(),
        final(host).input() == old(host).input(),
        final(host).resync() == old(host).resync(),
{
    let oversized: Vec<u8> = vec![0x42u8; MAX_MESSAGE_SIZE + 1];
    match host.send_message(oversized.as_slice()) {
        Err(Error::PacketTooLarge(_)) => if established {
            Ok(())
        } else {
            Err(Divergence::Session)
        },
        Err(Error::EncryptionFailed(_)) => if !established {
            Ok(())
        } else {
            Err(Divergence::Session)
        },
        _ => Err(Divergence::Session),
    }
}

/// What a host finds in its input while it awaits the answer to its hello.
enum Found {
    /// Nothing that decides the handshake.
    Nothing,
    /// A frame that does not decode.
    Undecodable,
    /// More stale frames than are skipped.
    Overrun,
    /// The packet sealed to the keys of the hello.
    Answer(Seq<u8>),
}

/// What the frames in an input come to for a host that awaits the answer to its hello,
/// having skipped a number of them.
spec fn found(hello: HelloKeys, stale: usize, input: framing::Input) -> Found
    decreases input.pending.len(),
{
    let front = framing::past_oversized(input);
    let rest = framing::after_item(front);
    match framing::next_item(front) {
        None => Found::Nothing,
        Some(item) => match framing::arrival(item) {
            framing::Arrival::Undecodable(_) => Found::Undecodable,
            framing::Arrival::Packet(packet) if hello.addressed(packet) => Found::Answer(packet),
            _ => if stale >= MAX_STALE_FRAMES {
                Found::Overrun
            } else if rest.pending.len() < input.pending.len() {
                found(hello, (stale + 1) as usize, rest)
            } else {
                Found::Nothing
            },
        },
    }
}

/// Level inputs come to the same.
proof fn lemma_found_level(
    hello: HelloKeys,
    stale: usize,
    left: framing::Input,
    right: framing::Input,
)
    requires
        level(left, right),
    ensures
        found(hello, stale, left) == found(hello, stale, right),
{
    framing::lemma_taking_shortens(left);
    framing::lemma_taking_shortens(right);
}

/// Whether everything read since the hello comes to what a host comes to with the input
/// it has left, whatever arrives behind them.
#[verifier::opaque]
spec fn on_course(
    hello: HelloKeys,
    total: framing::Input,
    stale: usize,
    input: framing::Input,
) -> bool {
    forall|more: Seq<u8>|
        found(hello, 0, #[trigger] framing::extended(total, more)) == found(
            hello,
            stale,
            framing::extended(input, more),
        )
}

/// A host that reads on is on course with what was read.
proof fn lemma_found_now(
    hello: HelloKeys,
    total: framing::Input,
    stale: usize,
    input: framing::Input,
)
    requires
        on_course(hello, total, stale, input),
    ensures
        found(hello, 0, total) == found(hello, stale, input),
{
    reveal(on_course);
    framing::lemma_extends(total, Seq::empty(), Seq::empty());
    framing::lemma_extends(input, Seq::empty(), Seq::empty());
    assert(found(hello, 0, framing::extended(total, Seq::empty())) == found(
        hello,
        stale,
        framing::extended(input, Seq::empty()),
    ));
}

/// A host that skips a frame stays on course.
proof fn lemma_skip_on_course(
    hello: HelloKeys,
    total: framing::Input,
    stale: usize,
    input: framing::Input,
)
    requires
        on_course(hello, total, stale, input),
        stale < MAX_STALE_FRAMES,
        framing::next_item(framing::past_oversized(input)) matches Some(item) && (
        match framing::arrival(item) {
            framing::Arrival::Undecodable(_) => false,
            framing::Arrival::Packet(packet) => !hello.addressed(packet),
            _ => true,
        }),
    ensures
        on_course(
            hello,
            total,
            (stale + 1) as usize,
            framing::after_item(framing::past_oversized(input)),
        ),
{
    reveal(on_course);
    let rest = framing::after_item(framing::past_oversized(input));
    assert forall|more: Seq<u8>|
        found(hello, 0, #[trigger] framing::extended(total, more)) == found(
            hello,
            (stale + 1) as usize,
            framing::extended(rest, more),
        ) by {
        let longer = framing::extended(input, more);
        framing::lemma_skipping_continues(input, more);
        framing::lemma_taking_shortens(longer);
        assert(found(hello, stale, longer) == found(
            hello,
            (stale + 1) as usize,
            framing::extended(rest, more),
        ));
    }
}

/// A host that has looked for a frame in vain stays on course.
proof fn lemma_feed_on_course(
    hello: HelloKeys,
    start: framing::Input,
    chunks: Seq<Seq<u8>>,
    stale: usize,
    input: framing::Input,
    bytes: Seq<u8>,
)
    requires
        on_course(hello, framing::extended(start, framing::joined(chunks)), stale, input),
        framing::next_item(framing::past_oversized(input)) is None,
    ensures
        on_course(
            hello,
            framing::extended(start, framing::joined(chunks.push(bytes))),
            stale,
            framing::extended(
                framing::after_item(framing::past_oversized(input)),
                bytes,
            ),
        ),
{
    reveal(on_course);
    let before = framing::extended(start, framing::joined(chunks));
    let after = framing::extended(start, framing::joined(chunks.push(bytes)));
    let rest = framing::after_item(framing::past_oversized(input));
    framing::lemma_joined(chunks, bytes);
    framing::lemma_extends(start, framing::joined(chunks), bytes);
    assert forall|more: Seq<u8>|
        found(hello, 0, #[trigger] framing::extended(after, more)) == found(
            hello,
            stale,
            framing::extended(framing::extended(rest, bytes), more),
        ) by {
        framing::lemma_extends(before, bytes, more);
        framing::lemma_extends(rest, bytes, more);
        framing::lemma_skipping_continues(input, bytes + more);
        lemma_found_level(
            hello,
            stale,
            framing::extended(rest, bytes + more),
            framing::extended(input, bytes + more),
        );
        assert(found(hello, 0, framing::extended(before, bytes + more)) == found(
            hello,
            stale,
            framing::extended(input, bytes + more),
        ));
    }
}

/// The reset and the hello of fresh keys go out.
spec fn greets<'a>(host: HostSide, ark: Ark<'a>, hello: HelloKeys, asked: Ark<'a>) -> bool {
    &&& asked == (Ark { outbox: asked.outbox, ..ark })
    &&& asked.outbox.bytes() == ark.outbox.bytes() + seq![0u8, 0u8] + super::packet_frame(
        hello.pair(),
    )
}

/// What the conclusion of a handshake comes to. The ack goes out as one frame and the
/// session starts, unless the transport broke in the meantime.
spec fn acks<'a>(
    concluded: Result<(Session, Vec<u8>, Attestation), Error>,
    after: HostSide,
    ark: Ark<'a>,
    acked: Ark<'a>,
    result: Result<Expect, Divergence>,
) -> bool {
    match concluded {
        Ok((session, ack, _)) => {
            &&& acked == (Ark { outbox: acked.outbox, ..ark })
            &&& if ark.broken {
                &&& result == Ok::<Expect, Divergence>(Expect::Failed(Kind::Send))
                &&& after.phase() == side_host::Phase::Idle
                &&& acked.outbox.bytes() == ark.outbox.bytes()
            } else {
                &&& result == Ok::<Expect, Divergence>(Expect::Done)
                &&& after.phase() == side_host::Phase::Established(session)
                &&& acked.outbox.bytes() == ark.outbox.bytes() + super::packet_frame(ack@)
            }
        },
        Err(error) => {
            &&& result == failure(error)
            &&& after.phase() == side_host::Phase::Idle
            &&& acked == ark
        },
    }
}

/// A handshake that has read a number of times comes to the result that the frames in
/// front of the host make of it, or to the failure of the next read.
spec fn decides<'a>(
    host: HostSide,
    after: HostSide,
    identity: &VerifyingKey,
    hello: HelloKeys,
    chunks: Seq<Seq<u8>>,
    ark: Ark<'a>,
    decided: Ark<'a>,
    result: Result<Expect, Divergence>,
) -> bool {
    match found(hello, 0, framing::extended(host.input(), framing::joined(chunks))) {
        Found::Nothing => match result {
            Ok(Expect::Failed(kind)) => {
                &&& ark.fails(kind, decided)
                &&& after.phase() == side_host::Phase::Idle
            },
            Ok(_) => false,
            Err(divergence) => ark.diverges(divergence, decided),
        },
        Found::Undecodable => {
            &&& result == Ok::<Expect, Divergence>(Expect::Failed(Kind::FrameDecoding))
            &&& after.phase() == side_host::Phase::Idle
            &&& decided == ark
        },
        Found::Overrun => {
            &&& result == Ok::<Expect, Divergence>(Expect::Failed(Kind::Handshake))
            &&& after.phase() == side_host::Phase::Idle
            &&& decided == ark
        },
        Found::Answer(packet) => {
            exists|concluded: Result<(Session, Vec<u8>, Attestation), Error>|
                {
                    &&& handshake::concludes(
                        identity,
                        packet,
                        hello,
                        None,
                        Answerer::Ark,
                        concluded,
                    )
                    &&& #[trigger] acks(concluded, after, ark, decided, result)
                }
        },
    }
}

/// A handshake on the host. On a broken transport not even the reset gets out.
/// Otherwise the hello follows it, and the host reads from the Ark as long as it finds
/// nothing that decides the handshake.
spec fn shakes<'a>(
    host: HostSide,
    after: HostSide,
    identity: &VerifyingKey,
    ark: Ark<'a>,
    shaken: Ark<'a>,
    result: Result<Expect, Divergence>,
) -> bool {
    if ark.broken {
        &&& result == Ok::<Expect, Divergence>(Expect::Failed(Kind::Send))
        &&& after.phase() == side_host::Phase::Idle
        &&& shaken == (Ark { outbox: shaken.outbox, ..ark })
        &&& shaken.outbox.bytes() == ark.outbox.bytes()
    } else {
        exists|hello: HelloKeys, asked: Ark<'a>, chunks: Seq<Seq<u8>>, arks: Seq<Ark<'a>>|
            {
                &&& #[trigger] greets(host, ark, hello, asked)
                &&& #[trigger] asked.serves(chunks, arks)
                &&& idles(host.input(), hello, chunks)
                &&& decides(host, after, identity, hello, chunks, arks.last(), shaken, result)
            }
    }
}

/// A host found nothing that decides its handshake before any of the reads.
#[verifier::opaque]
spec fn idles(input: framing::Input, hello: HelloKeys, chunks: Seq<Seq<u8>>) -> bool {
    forall|i: int|
        0 <= i < chunks.len() ==> found(
            hello,
            0,
            framing::extended(input, framing::joined(#[trigger] chunks.take(i))),
        ) == Found::Nothing
}

/// A host that found nothing reads on.
proof fn lemma_idles_on(
    input: framing::Input,
    hello: HelloKeys,
    chunks: Seq<Seq<u8>>,
    bytes: Seq<u8>,
)
    requires
        idles(input, hello, chunks),
        found(hello, 0, framing::extended(input, framing::joined(chunks))) == Found::Nothing,
    ensures
        idles(input, hello, chunks.push(bytes)),
{
    reveal(idles);
    framing::lemma_joined(chunks, bytes);
}

/// The hello that goes out is the one that was missing.
proof fn lemma_greeted<'a>(host: HostSide, ark: Ark<'a>, hello: HelloKeys, asked: Ark<'a>)
    requires
        ark.tidy(1),
        greets(host, ark, hello, asked),
        cobs::carries(cobs::cobs_encoded(hello.pair()), hello.pair()),
        handshake::hello_keys(hello.pair()) is Some,
    ensures
        asked.tidy(0),
{
    reveal(Ark::tidy);
    let body = cobs::cobs_encoded(hello.pair());
    let written = ark.outbox.bytes();
    let none = Seq::<u8>::empty();
    assert(none + seq![0u8] =~= seq![0u8]);
    assert(asked.outbox.bytes() =~= written + (seq![0u8] + (seq![0u8] + (body + seq![0u8]))));
    framing::lemma_piece(none);
    framing::lemma_piece(body);
    framing::lemma_pieces(seq![0u8], body + seq![0u8]);
    framing::lemma_pieces(seq![0u8], seq![0u8] + (body + seq![0u8]));
    framing::lemma_pieces(written, seq![0u8] + (seq![0u8] + (body + seq![0u8])));
    let added = seq![none] + (seq![none] + seq![body]);
    lemma_filled_both(framing::pieces(written), added);
    assert(added.drop_last() =~= seq![none, none]);
    assert(seq![none, none].drop_last() =~= seq![none]);
    assert(seq![none].drop_last() =~= Seq::<Seq<u8>>::empty());
    reveal_with_fuel(filled, 4);
    assert(filled(added) =~= seq![body]);
    assert(asked.written() =~= ark.written().push(body));
    assert(legible(body));
}

/// Where a host stands that reads for a call without a session: between two frames, or
/// within one that the model has taken into account.
spec fn attends<'a>(
    call: Call,
    input: framing::Input,
    flying: Option<Frame>,
    ark: Ark<'a>,
) -> bool {
    &&& ark.smooth()
    &&& call != Call::Idle
    &&& !input.discarding
    &&& match flying {
        None => {
            &&& input.pending == Seq::<u8>::empty()
            &&& ark.bytes@.len() == 0
            &&& ark.call == call
        },
        Some(frame) => {
            &&& fitting(frame, input.pending + ark.bytes@)
            &&& steers(call, frame, ark.call, ark.expect)
        },
    }
}

/// What a host finds in its input while it reads for a call without a session.
proof fn lemma_attends<'a>(
    call: Call,
    input: framing::Input,
    flying: Option<Frame>,
    ark: Ark<'a>,
)
    requires
        attends(call, input, flying, ark),
    ensures
        framing::past_oversized(input) == input,
        match flying {
            Some(frame) if ark.bytes@.len() == 0 => {
                let body = input.pending.drop_last();
                &&& framing::next_item(input) == Some(framing::Item::Frame(body))
                &&& framing::after_item(input) == framing::boundary()
                &&& match frame {
                    Frame::Dropped => body.len() == 0,
                    Frame::Undecodable => cobs::overruns(body),
                    _ => framing::arrival(framing::Item::Frame(body)) is Packet,
                }
            },
            _ => {
                &&& framing::next_item(input) is None
                &&& framing::after_item(input) == input
            },
        },
{
    framing::lemma_first_zero(Seq::<u8>::empty());
    match flying {
        Some(frame) => lemma_arrives(frame, input.pending, ark.bytes@),
        None => {},
    }
}

/// A host that gets more of a frame, or the next one, goes on reading.
proof fn lemma_attends_on<'a>(
    call: Call,
    input: framing::Input,
    flying: Option<Frame>,
    ark: Ark<'a>,
    bytes: Seq<u8>,
    after: Ark<'a>,
) -> (next: Option<Frame>)
    requires
        attends(call, input, flying, ark),
        framing::next_item(framing::past_oversized(input)) is None,
        ark.hands(bytes, after),
        ark.bytes@.len() == 0 && ark.call != Call::Idle && ark.smooth() ==> after.smooth()
            && exists|frame: Frame|
            fitting(frame, bytes + after.bytes@) && #[trigger] steers(
                ark.call,
                frame,
                after.call,
                after.expect,
            ),
    ensures
        attends(
            call,
            framing::extended(framing::after_item(framing::past_oversized(input)), bytes),
            next,
            after,
        ),
{
    lemma_attends(call, input, flying, ark);
    if ark.bytes@.len() == 0 {
        let frame = choose|frame: Frame|
            fitting(frame, bytes + after.bytes@) && #[trigger] steers(
                ark.call,
                frame,
                after.call,
                after.expect,
            );
        assert(input.pending + bytes =~= bytes);
        Some(frame)
    } else {
        reveal(Ark::supplies);
        ark.lemma_still_tidy(after, 0);
        assert(after@ == ark@);
        assert(input.pending + bytes + after.bytes@ =~= input.pending + ark.bytes@);
        flying
    }
}

/// Whether a handshake that is about to start comes to its result without a packet being
/// opened.
spec fn eases<'a>(host: HostSide, ark: Ark<'a>) -> bool {
    &&& !ark.broken
    &&& ark.tidy(1)
    &&& ark.lonely()
    &&& ark.has_room()
    &&& clear(ark@, ark.steps@, ark.next as int)
    &&& ark.bytes@.len() == 0
    &&& ark.call matches Call::Handshake { stale, .. } && stale == 0
    &&& host.input() == framing::boundary()
}

/// A call came to the predicted result and left nothing behind.
spec fn settles<'a>(host: HostSide, ark: Ark<'a>, result: Result<Expect, Divergence>) -> bool {
    &&& result matches Ok(result)
    &&& ark.expect == Some(result)
    &&& result is Failed
    &&& ark.untouched()
    &&& ark.has_room()
    &&& ark.bytes@.len() == 0
    &&& host.input() == framing::boundary()
    &&& host.phase() is Idle
}

/// Where a host stands that reads for a call: between two frames, or within the one that
/// was queued first when an Ark was ready, and that the host takes for what it is.
spec fn heeds<'a>(
    call: Call,
    session: Option<u64>,
    ear: Ear,
    identity: VerifyingKey,
    input: framing::Input,
    taken: Option<Ark<'a>>,
    ark: Ark<'a>,
) -> bool {
    &&& call != Call::Idle
    &&& !input.discarding
    &&& match taken {
        None => input.pending == Seq::<u8>::empty() && ark.ready(call, session, ear),
        Some(before) => {
            &&& before.ready(call, session, ear)
            &&& !before.confused(ear, identity)
            &&& before.takes(input.pending + ark.bytes@, ark)
            &&& ark.wf()
        },
    }
}

/// What a host finds in its input while it reads for a call.
proof fn lemma_heeds<'a>(
    call: Call,
    session: Option<u64>,
    ear: Ear,
    identity: VerifyingKey,
    input: framing::Input,
    taken: Option<Ark<'a>>,
    ark: Ark<'a>,
)
    requires
        heeds(call, session, ear, identity, input, taken, ark),
    ensures
        framing::past_oversized(input) == input,
        match taken {
            Some(before) if ark.bytes@.len() == 0 => {
                let body = before.packets@[0]@.drop_last();
                &&& framing::next_item(input) == Some(framing::Item::Frame(body))
                &&& framing::after_item(input) == framing::boundary()
                &&& match before.frames@[0] {
                    Frame::Dropped => body.len() == 0,
                    Frame::Undecodable => cobs::overruns(body),
                    _ => {
                        &&& cobs::cobs_decoded(body) matches Ok(packet)
                        &&& framing::arrival(framing::Item::Frame(body))
                            == framing::Arrival::Packet(packet)
                    },
                }
            },
            _ => {
                &&& framing::next_item(input) is None
                &&& framing::after_item(input) == input
            },
        },
{
    framing::lemma_first_zero(Seq::<u8>::empty());
    match taken {
        Some(before) => {
            assert(fitting(before.frames@[0], before.packets@[0]@));
            lemma_arrives(before.frames@[0], input.pending, ark.bytes@);
            if ark.bytes@.len() == 0 {
                assert(input.pending + ark.bytes@ =~= input.pending);
            }
        },
        None => {},
    }
}

/// A host that gets more of a frame, or the next one, reads on.
#[verifier::spinoff_prover]
#[verifier::rlimit(30)]
proof fn lemma_heeds_on<'a>(
    call: Call,
    session: Option<u64>,
    ear: Ear,
    identity: VerifyingKey,
    input: framing::Input,
    taken: Option<Ark<'a>>,
    ark: Ark<'a>,
    bytes: Seq<u8>,
    after: Ark<'a>,
) -> (next: Option<Ark<'a>>)
    requires
        heeds(call, session, ear, identity, input, taken, ark),
        framing::next_item(framing::past_oversized(input)) is None,
        ark.hands(bytes, after),
    ensures
        ark.strays(ear, identity) || !after.apart@ || heeds(
            call,
            session,
            ear,
            identity,
            framing::extended(framing::after_item(framing::past_oversized(input)), bytes),
            next,
            after,
        ),
{
    lemma_heeds(call, session, ear, identity, input, taken, ark);
    reveal(Ark::supplies);
    if ark.bytes@.len() == 0 {
        let arks = choose|arks: Seq<Ark<'a>>| #[trigger]
            ark.skips(arks) && arks.last().takes(bytes + after.bytes@, after);
        assert(arks.len() > 0) by {
            reveal(Ark::skips);
        }
        ark.lemma_skips_ready(arks, arks.len() - 1, call, session, ear);
        if arks.last().confused(ear, identity) {
            reveal(Ark::strays);
            assert(ark.skips(arks));
        }
        assert(input.pending + bytes =~= bytes);
        Some(arks.last())
    } else {
        assert(after@ == ark@);
        assert(input.pending + bytes + after.bytes@ =~= input.pending + ark.bytes@);
        taken
    }
}

/// A call has come to the predicted result, and host and model agree on what it left. A
/// handshake that is done leaves a fresh session, its ack being the last thing written.
spec fn concurs<'a>(host: HostSide, ark: Ark<'a>, result: Result<Expect, Divergence>) -> bool {
    &&& result matches Ok(result)
    &&& ark.expect == Some(result)
    &&& ark.tallies_below(ark.next as int)
    &&& stands(host, ark)
    &&& if result == Expect::Done {
        &&& host.phase() matches side_host::Phase::Established(session)
        &&& sealing::sender_sequence(session.sender) == 0
        &&& sealing::receiver_sequence(session.receiver) == 0
        &&& ark.host_seq == 0
        &&& ark.host_session matches Some(generation)
        &&& ark.writes@.len() > 0
        &&& ark.writes@.last() == Wrote::Ack(generation)
    } else {
        hellos(ark.writes@) && linked(host.phase(), ark)
    }
}

/// Host and model agree on whether there is a session, the host stands between two frames
/// and has written what it was to write, and nothing was counted too often.
spec fn stands<'a>(host: HostSide, ark: Ark<'a>) -> bool {
    &&& host.input() == framing::boundary()
    &&& ark.bytes@.len() == 0
    &&& ark.even(0)
    &&& ark.bounded()
    &&& ark.ledger()
    &&& junk_fits(ark.steps@)
    &&& match host.phase() {
        side_host::Phase::Established(session) => {
            &&& ark.host_session is Some
            &&& sealing::sender_sequence(session.sender) <= ark.next
        },
        _ => ark.host_session is None,
    }
}

/// Host and model agree on everything, host and Ark are in step, and the Ark has seen all
/// that the host wrote.
spec fn agrees<'a>(host: HostSide, ark: Ark<'a>) -> bool {
    &&& stands(host, ark)
    &&& linked(host.phase(), ark)
    &&& ark.writes@.len() == 0
}

/// A read that fails comes to the predicted result.
#[verifier::spinoff_prover]
#[verifier::rlimit(30)]
proof fn lemma_heeds_fails<'a>(
    call: Call,
    session: Option<u64>,
    ear: Ear,
    identity: VerifyingKey,
    input: framing::Input,
    taken: Option<Ark<'a>>,
    ark: Ark<'a>,
    kind: Kind,
    host: HostSide,
    after: Ark<'a>,
)
    requires
        heeds(call, session, ear, identity, input, taken, ark),
        call is Handshake ==> session is None,
        framing::next_item(framing::past_oversized(input)) is None,
        ark.fails(kind, after),
        host.phase() is Idle,
        host.input() == framing::after_item(framing::past_oversized(input)),
    ensures
        concurs(host, after, Ok(Expect::Failed(kind))),
{
    lemma_heeds(call, session, ear, identity, input, taken, ark);
    let arks = choose|arks: Seq<Ark<'a>>| #[trigger]
        ark.skips(arks) && arks.last().gives_up(kind, after);
    assert(arks.len() > 0) by {
        reveal(Ark::skips);
    }
    ark.lemma_skips_ready(arks, arks.len() - 1, call, session, ear);
    assert(after.writes@ == after@.writes);
    arks.last().lemma_still_even(after, 0);
    arks.last().lemma_still_ledger(after);
    arks.last().lemma_still_capped(after, arks.last().next as int, after.next as int);
    assert(after.host_seq == after@.host_seq);
    assert(host.input() == framing::boundary());
}

/// What a complete frame makes of a handshake that takes it for what it is.
#[verifier::spinoff_prover]
#[verifier::rlimit(40)]
proof fn lemma_heeds_greets<'a>(
    generation: u64,
    stale: usize,
    hello: HelloKeys,
    identity: VerifyingKey,
    input: framing::Input,
    before: Ark<'a>,
    ark: Ark<'a>,
    progress: Progress<Attestation>,
    phase: side_host::Phase,
)
    requires
        heeds(
            Call::Handshake { generation, stale },
            None,
            Ear::Handshake(hello),
            identity,
            input,
            Some(before),
            ark,
        ),
        ark.bytes@.len() == 0,
        framing::cut_off(framing::next_item(input)),
        side_host::greets(
            &identity,
            hello,
            stale,
            framing::arrival(framing::next_item(input)->0),
            false,
            progress,
            phase,
        ),
    ensures
        match progress {
            Progress::Again => heeds(
                Call::Handshake { generation, stale: (stale + 1) as usize },
                None,
                Ear::Handshake(hello),
                identity,
                framing::after_item(input),
                None,
                ark,
            ),
            Progress::Failed(error) => {
                &&& kind_of(error) matches Some(kind)
                &&& ark.expect == Some(Expect::Failed(kind))
                &&& ark.tallies_below(ark.next as int)
                &&& ark.even(0)
                &&& ark.bounded()
                &&& ark.host_session is None
                &&& ark.ledger()
                &&& hellos(ark.writes@)
            },
            Progress::Ack(bytes, _) => {
                &&& phase matches side_host::Phase::Acked(session)
                &&& sealing::sender_sequence(session.sender) == 0
                &&& sealing::receiver_sequence(session.receiver) == 0
                &&& ark.tallies_below(ark.next as int)
                &&& ark.bounded()
                &&& ark.ledger()
                &&& if ark.broken {
                    &&& ark.expect == Some(Expect::Failed(Kind::Send))
                    &&& ark.even(0)
                    &&& ark.host_session is None
                    &&& hellos(ark.writes@)
                } else {
                    &&& ark.expect == Some(Expect::Done)
                    &&& ark.even(1)
                    &&& ark.writes@.len() > 0
                    &&& ark.writes@.last() == Wrote::Ack(generation)
                    &&& ark.host_session == Some(generation)
                    &&& ark.host_seq == 0
                }
            },
            _ => false,
        },
{
    let call = Call::Handshake { generation, stale };
    let ear = Ear::Handshake(hello);
    lemma_heeds(call, None, ear, identity, input, Some(before), ark);
    reveal(Model::consumed);
    let frame = before.frames@[0];
    let body = before.packets@[0]@.drop_last();
    assert(ark.writes@ == ark@.writes && before.writes@ == before@.writes);
    assert(ark.host_seq == ark@.host_seq);
    assert(frame == before@.queue[0]);
    before.lemma_still_capped(ark, before.next as int, ark.next as int);
    if ark.writes@ == before.writes@ {
        before.lemma_still_even(ark, 0);
        before.lemma_takes_ledger(input.pending + ark.bytes@, ark);
    }
    if answers(frame, call) {
        let packet = cobs::cobs_decoded(body)->Ok_0;
        assert(!misjudges(identity, hello, call, frame, packet));
        let concluded = choose|concluded: Result<(Session, Vec<u8>, Attestation), Error>|
            {
                &&& handshake::concludes(&identity, packet, hello, None, Answerer::Ark, concluded)
                &&& #[trigger] side_host::finishes(concluded, false, progress, phase)
            };
        assert(befits(frame->flaw, concluded));
        handshake::lemma_conclusion_fits(
            &identity,
            packet,
            hello,
            None,
            Answerer::Ark,
            concluded,
        );
        if frame->flaw == Flaw::Intact && !ark.broken {
            assert(ark.writes@ == before.writes@.push(Wrote::Ack(generation)));
            assert(ark.even(1)) by {
                reveal(Ark::even);
            }
            assert(later(before.session, generation));
            before.lemma_takes_ledger(input.pending + ark.bytes@, ark);
        }
    }
}

/// One more frame is what was missing of what the host was to write.
proof fn lemma_even_wrote<'a>(ark: Ark<'a>, after: Ark<'a>, resets: nat, body: Seq<u8>)
    requires
        ark.even(1),
        resets <= 2,
        after.writes@ == ark.writes@,
        after.outbox.bytes() == ark.outbox.bytes() + (Seq::new(resets, |i: int| 0u8) + (body
            + seq![0u8])),
        cobs::zero_free(body),
        body.len() > 0,
        ark.writes@.last() == Wrote::Hello ==> legible(body),
    ensures
        after.even(0),
        after.written() == ark.written().push(body),
{
    reveal(Ark::even);
    let written = ark.outbox.bytes();
    let none = Seq::<u8>::empty();
    let zero = seq![0u8];
    let tail = body + zero;
    let front = Seq::new(resets, |i: int| 0u8);
    assert(none + zero =~= zero);
    framing::lemma_piece(none);
    framing::lemma_piece(body);
    framing::lemma_pieces(zero, tail);
    framing::lemma_pieces(zero, zero + tail);
    framing::lemma_pieces(written, front + tail);
    let added = if resets == 0 {
        assert(front + tail =~= tail);
        seq![body]
    } else if resets == 1 {
        assert(front + tail =~= zero + tail);
        seq![none] + seq![body]
    } else {
        assert(front + tail =~= zero + (zero + tail));
        seq![none] + (seq![none] + seq![body])
    };
    assert(framing::pieces(front + tail) == added);
    lemma_filled_both(framing::pieces(written), added);
    assert((seq![none] + (seq![none] + seq![body])).drop_last() =~= seq![none, none]);
    assert((seq![none] + seq![body]).drop_last() =~= seq![none]);
    assert(seq![body].drop_last() =~= Seq::<Seq<u8>>::empty());
    assert(seq![none, none].drop_last() =~= seq![none]);
    assert(seq![none].drop_last() =~= Seq::<Seq<u8>>::empty());
    reveal_with_fuel(filled, 4);
    assert(filled(added) =~= seq![body]);
    assert(after.written() =~= ark.written().push(body));
}

/// Whether a handshake is about to start, host and model agreeing on everything but the
/// hello that is to go out.
spec fn eager<'a>(host: HostSide, ark: Ark<'a>) -> bool {
    &&& !ark.broken
    &&& host.input() == framing::boundary()
    &&& ark.bytes@.len() == 0
    &&& ark.call matches Call::Handshake { generation, stale } && stale == 0 && later(
        ark.session,
        generation,
    )
    &&& ark.host_session is None
    &&& ark.even(1)
    &&& ark.writes@.last() == Wrote::Hello
    &&& ark.ledger()
    &&& hellos(ark.writes@)
    &&& ark.roomy()
    &&& junk_fits(ark.steps@)
}

/// A handshake comes to a frame that the host takes for something else than it stands for,
/// or to a step at which the Ark does not open what the host wrote.
spec fn shakes_astray<'a>(host: HostSide, identity: VerifyingKey, ark: Ark<'a>) -> bool {
    exists|hello: HelloKeys, asked: Ark<'a>, chunks: Seq<Seq<u8>>, arks: Seq<Ark<'a>>|
        {
            &&& #[trigger] greets(host, ark, hello, asked)
            &&& #[trigger] asked.serves(chunks, arks)
            &&& idles(host.input(), hello, chunks)
            &&& arks.last().strays(Ear::Handshake(hello), identity)
        }
}

/// Runs a handshake on the host, serving its reads from the script.
#[verifier::spinoff_prover]
#[verifier::rlimit(30)]
fn handshake(host: &mut HostSide, ark: &mut Ark, identity: &VerifyingKey) -> (result: Result<
    Expect,
    Divergence,
>)
    requires
        old(ark).wf(),
        at_rest(*old(host)),
    ensures
        final(ark).steps == old(ark).steps,
        final(ark).limit == old(ark).limit,
        final(ark).next >= old(ark).next,
        result is Ok ==> old(ark).led(*final(ark)) && at_rest(*final(host)),
        shakes(*old(host), *final(host), identity, *old(ark), *final(ark), result),
        eases(*old(host), *old(ark)) ==> settles(*final(host), *final(ark), result),
        eager(*old(host), *old(ark)) ==> concurs(*final(host), *final(ark), result)
            || shakes_astray(*old(host), *identity, *old(ark)) || !final(ark).apart@,
        final(ark).apart@ ==> old(ark).apart@,
{
    let ghost start = host.input();
    let ghost keen = eager(*old(host), *old(ark));
    let ghost mut taken: Option<Ark> = None;
    let ghost easy = eases(*old(host), *old(ark));
    let ghost generation = ark.call->Handshake_generation;
    let ghost mut flying: Option<Frame> = None;
    // The reset and the hello go out first
    match host.handshake(identity) {
        Progress::Write(bytes) => if !write(host, ark, bytes) {
            return Ok(Expect::Failed(Kind::Send));
        },
        _ => return Err(Divergence::Surfaced),
    }
    match host.handshake(identity) {
        Progress::Write(bytes) => if !write(host, ark, bytes) {
            return Ok(Expect::Failed(Kind::Send));
        },
        _ => return Err(Divergence::Surfaced),
    }
    let ghost hello = host.phase()->AwaitHello_0;
    let ghost mut chunks: Seq<Seq<u8>> = Seq::empty();
    let ghost mut arks: Seq<Ark> = seq![*ark];
    let ghost asked = *ark;
    proof {
        assert(greets(*old(host), *old(ark), hello, asked));
        if easy {
            lemma_greeted(*old(host), *old(ark), hello, asked);
        }
        if keen {
            let body = cobs::cobs_encoded(hello.pair());
            assert(asked.outbox.bytes() =~= old(ark).outbox.bytes() + (Seq::new(2, |i: int| 0u8)
                + (body + seq![0u8])));
            lemma_even_wrote(*old(ark), asked, 2, body);
            old(ark).lemma_still_ledger(asked);
            old(ark).lemma_still_capped(asked, asked.next as int, asked.next as int);
        }
        framing::lemma_extends(start, Seq::empty(), Seq::empty());
        reveal(idles);
        reveal(on_course);
        reveal(Ark::serves);
    }
    loop
        invariant
            old(ark).led(*ark),
            !host.writing(),
            !host.resync(),
            host.phase() matches side_host::Phase::AwaitHello(keys, stale) && keys == hello
                && on_course(
                hello,
                framing::extended(start, framing::joined(chunks)),
                stale,
                host.input(),
            ),
            start == old(host).input(),
            !old(ark).broken,
            greets(*old(host), *old(ark), hello, asked),
            asked.serves(chunks, arks),
            arks.last() == *ark,
            idles(start, hello, chunks),
            easy == eases(*old(host), *old(ark)),
            easy ==> attends(
                Call::Handshake { generation, stale: host.phase()->AwaitHello_1 },
                host.input(),
                flying,
                *ark,
            ),
            keen == eager(*old(host), *old(ark)),
            keen ==> heeds(
                Call::Handshake { generation, stale: host.phase()->AwaitHello_1 },
                None,
                Ear::Handshake(hello),
                *identity,
                host.input(),
                taken,
                *ark,
            ) || shakes_astray(*old(host), *identity, *old(ark)) || !ark.apart@,
            ark.apart@ ==> old(ark).apart@,
        decreases
                ark.limit - ark.next,
                ark.frames@.len(),
                ark.bytes@.len(),
                host.input().pending.len(),
    {
        let ghost total = framing::extended(start, framing::joined(chunks));
        let ghost input = host.input();
        let ghost stale = host.phase()->AwaitHello_1;
        proof {
            framing::lemma_taking_shortens(input);
            lemma_found_now(hello, total, stale, input);
            if easy {
                lemma_attends(Call::Handshake { generation, stale }, input, flying, *ark);
            }
        }
        let ghost call = Call::Handshake { generation, stale };
        let ghost ear = Ear::Handshake(hello);
        let ghost close = keen && !shakes_astray(*old(host), *identity, *old(ark)) && ark.apart@;
        proof {
            if close {
                lemma_heeds(call, None, ear, *identity, input, taken, *ark);
            }
        }
        let progress = host.handshake(identity);
        proof {
            if close && framing::next_item(input) is Some {
                lemma_heeds_greets(
                    generation,
                    stale,
                    hello,
                    *identity,
                    input,
                    taken->0,
                    *ark,
                    progress,
                    host.phase(),
                );
            }
        }
        match progress {
            Progress::Again => {
                proof {
                    lemma_skip_on_course(hello, total, stale, input);
                    flying = None;
                    taken = None;
                }
            },
            Progress::Read => match ark.feed() {
                Ok(Fed::Bytes(bytes)) => {
                    host.feed(bytes.as_slice());
                    proof {
                        if easy {
                            flying =
                            lemma_attends_on(
                                Call::Handshake { generation, stale },
                                input,
                                flying,
                                arks.last(),
                                bytes@,
                                *ark,
                            );
                        }
                        if close {
                            taken =
                            lemma_heeds_on(
                                call,
                                None,
                                ear,
                                *identity,
                                input,
                                taken,
                                arks.last(),
                                bytes@,
                                *ark,
                            );
                            assert(!arks.last().strays(ear, *identity));
                        }
                        asked.lemma_serves_more(chunks, arks, bytes@, *ark);
                        lemma_feed_on_course(hello, start, chunks, stale, input, bytes@);
                        lemma_idles_on(start, hello, chunks, bytes@);
                        chunks = chunks.push(bytes@);
                        arks = arks.push(*ark);
                    }
                },
                Ok(Fed::Failed(kind)) => {
                    host.interrupt();
                    proof {
                        if close {
                            lemma_heeds_fails(
                                call,
                                None,
                                ear,
                                *identity,
                                input,
                                taken,
                                arks.last(),
                                kind,
                                *host,
                                *ark,
                            );
                        }
                    }
                    return Ok(Expect::Failed(kind));
                },
                Err(divergence) => {
                    proof {
                        if close {
                            arks.last().lemma_diverges_strays(
                                divergence,
                                call,
                                None,
                                ear,
                                *identity,
                                *ark,
                            );
                        }
                    }
                    return Err(divergence);
                },
            },
            Progress::Ack(bytes, info) => {
                let ghost packet = found(hello, 0, total)->Answer_0;
                let ghost concluded = concluding(
                    identity,
                    hello,
                    packet,
                    Progress::Ack(bytes, info),
                    host.phase(),
                );
                let ghost before = *ark;
                let result: Result<Expect, Divergence> = Ok(
                    if write(host, ark, bytes) {
                        Expect::Done
                    } else {
                        Expect::Failed(Kind::Send)
                    },
                );
                proof {
                    assert(acks(concluded, *host, before, *ark, result));
                    if close {
                        before.lemma_still_ledger(*ark);
                        before.lemma_still_capped(*ark, ark.next as int, ark.next as int);
                        if before.broken {
                            assert(ark.even(0)) by {
                                reveal(Ark::even);
                            }
                        } else {
                            let body = cobs::cobs_encoded(concluded->Ok_0.1@);
                            assert(ark.outbox.bytes() =~= before.outbox.bytes() + (Seq::new(
                                0,
                                |i: int| 0u8,
                            ) + (body + seq![0u8])));
                            lemma_even_wrote(before, *ark, 0, body);
                        }
                    }
                }
                return result;
            },
            Progress::Failed(error) => {
                proof {
                    if let Found::Answer(packet) = found(hello, 0, total) {
                        let concluded = concluding(
                            identity,
                            hello,
                            packet,
                            Progress::Failed(error),
                            host.phase(),
                        );
                        handshake::lemma_conclusion_fits(
                            identity,
                            packet,
                            hello,
                            None,
                            Answerer::Ark,
                            concluded,
                        );
                        assert(acks(concluded, *host, *ark, *ark, failure(error)));
                    }
                }
                return failed(error);
            },
            Progress::Write(_) => return Err(Divergence::Surfaced),
        }
    }
}

/// Conclusion that a host drew from the answer to its hello.
spec fn concluding(
    identity: &VerifyingKey,
    hello: HelloKeys,
    packet: Seq<u8>,
    progress: Progress<Attestation>,
    phase: side_host::Phase,
) -> Result<(Session, Vec<u8>, Attestation), Error> {
    choose|concluded: Result<(Session, Vec<u8>, Attestation), Error>|
        {
            &&& handshake::concludes(identity, packet, hello, None, Answerer::Ark, concluded)
            &&& #[trigger] side_host::finishes(concluded, false, progress, phase)
        }
}

/// Result of a receive that came to a message or an error.
spec fn told(message: Result<Vec<u8>, Error>) -> Result<Expect, Divergence> {
    match message {
        Ok(bytes) => Ok(
            match super::tag_of(bytes@) {
                Some(id) => Expect::Message(id),
                None => Expect::Failed(Kind::PacketDecoding),
            },
        ),
        Err(error) => failure(error),
    }
}

/// A receive comes to the result that the first frame read makes of it, or to the
/// failure of the read behind which no frame is complete.
spec fn hears(
    host: HostSide,
    heard: HostSide,
    chunks: Seq<Seq<u8>>,
    ark: Ark,
    after: Ark,
    result: Result<Expect, Divergence>,
) -> bool {
    let input = framing::past_oversized(framing::extended(host.input(), framing::joined(chunks)));
    match framing::next_item(input) {
        None => match result {
            Ok(Expect::Failed(kind)) => {
                &&& ark.fails(kind, after)
                &&& heard.phase() == side_host::Phase::Idle
            },
            Ok(_) => false,
            Err(divergence) => ark.diverges(divergence, after),
        },
        Some(item) => {
            &&& after == ark
            &&& heard.input() == framing::after_item(input)
            &&& exists|message: Result<Vec<u8>, Error>|
                {
                    &&& #[trigger] side_host::receives(
                        host.phase(),
                        framing::arrival(item),
                        message,
                        heard.phase(),
                    )
                    &&& result == told(message)
                }
        },
    }
}

/// A receive on the host reads from the Ark as long as no frame is complete.
spec fn listens(
    host: HostSide,
    heard: HostSide,
    ark: Ark,
    after: Ark,
    result: Result<Expect, Divergence>,
) -> bool {
    exists|chunks: Seq<Seq<u8>>, arks: Seq<Ark>|
        {
            &&& #[trigger] ark.serves(chunks, arks)
            &&& forall|i: int|
                0 <= i < chunks.len() ==> framing::next_item(
                    framing::past_oversized(
                        framing::extended(host.input(), framing::joined(#[trigger] chunks.take(i))),
                    ),
                ) is None
            &&& hears(host, heard, chunks, arks.last(), after, result)
        }
}

/// Whether a receive that is about to start comes to its result without a packet being
/// opened.
spec fn awaits<'a>(host: HostSide, ark: Ark<'a>) -> bool {
    &&& ark.smooth()
    &&& ark.bytes@.len() == 0
    &&& ark.call is Recv
    &&& host.input() == framing::boundary()
    &&& host.phase() is Idle
}

/// What a complete frame makes of a receive that takes it for what it is.
#[verifier::spinoff_prover]
#[verifier::rlimit(40)]
proof fn lemma_heeds_receives<'a>(
    host: HostSide,
    session: Option<u64>,
    identity: VerifyingKey,
    input: framing::Input,
    before: Ark<'a>,
    ark: Ark<'a>,
    message: Result<Vec<u8>, Error>,
    heard: HostSide,
)
    requires
        heeds(
            Call::Recv,
            session,
            Ear::Recv(host.phase()),
            identity,
            input,
            Some(before),
            ark,
        ),
        match host.phase() {
            side_host::Phase::Established(sealed) => session is Some && sealing::sender_sequence(
                sealed.sender,
            ) <= ark.next,
            _ => session is None,
        },
        ark.bytes@.len() == 0,
        framing::cut_off(framing::next_item(input)),
        heard.input() == framing::after_item(input),
        side_host::receives(
            host.phase(),
            framing::arrival(framing::next_item(input)->0),
            message,
            heard.phase(),
        ),
    ensures
        concurs(heard, ark, told(message)),
{
    let ear = Ear::Recv(host.phase());
    lemma_heeds(Call::Recv, session, ear, identity, input, Some(before), ark);
    reveal(Model::consumed);
    let frame = before.frames@[0];
    assert(ark.writes@ == ark@.writes && before.writes@ == before@.writes);
    assert(ark.host_seq == ark@.host_seq && before.host_seq == before@.host_seq);
    assert(ark.host_session == ark@.host_session && ark.expect == ark@.expect);
    assert(frame == before@.queue[0]);
    before.lemma_still_even(ark, 0);
    before.lemma_still_capped(ark, before.next as int, ark.next as int);
    before.lemma_takes_ledger(input.pending + ark.bytes@, ark);
    if let (Frame::Sealed { session: id, seq, tag, garbage }, side_host::Phase::Established(own)) =
        (frame, host.phase()) {
        if before.host_session == Some(id) && seq == before.host_seq {
            let body = before.packets@[0]@.drop_last();
            assert(booked(before.session, before.frames@[0], before.packets@[0]@)) by {
                reveal(Ark::ledger);
            }
            super::lemma_holds(
                sealing::receiver_context(own.receiver),
                seq as nat,
                body,
                content(tag, garbage),
            );
            super::law_tag_reads_back(tag as u64);
        }
    }
}

/// Whether a receive is about to start, host and model agreeing on everything.
spec fn alert<'a>(host: HostSide, ark: Ark<'a>) -> bool {
    &&& ark.call is Recv
    &&& ark.roomy()
    &&& agrees(host, ark)
}

/// A receive comes to a frame that the host takes for something else than it stands for, or
/// to a step at which the Ark does not open what the host wrote.
spec fn listens_astray<'a>(host: HostSide, identity: VerifyingKey, ark: Ark<'a>) -> bool {
    exists|chunks: Seq<Seq<u8>>, arks: Seq<Ark<'a>>|
        {
            &&& #[trigger] ark.serves(chunks, arks)
            &&& forall|i: int|
                0 <= i < chunks.len() ==> framing::next_item(
                    framing::past_oversized(
                        framing::extended(host.input(), framing::joined(#[trigger] chunks.take(i))),
                    ),
                ) is None
            &&& arks.last().strays(Ear::Recv(host.phase()), identity)
        }
}

/// Runs a receive on the host, serving its reads from the script.
#[verifier::spinoff_prover]
#[verifier::rlimit(30)]
fn receive(
    host: &mut HostSide,
    ark: &mut Ark,
    Ghost(identity): Ghost<VerifyingKey>,
) -> (result: Result<Expect, Divergence>)
    requires
        old(ark).wf(),
        at_rest(*old(host)),
    ensures
        final(ark).steps == old(ark).steps,
        final(ark).limit == old(ark).limit,
        final(ark).next >= old(ark).next,
        result is Ok ==> old(ark).led(*final(ark)) && at_rest(*final(host)),
        listens(*old(host), *final(host), *old(ark), *final(ark), result),
        awaits(*old(host), *old(ark)) ==> settles(*final(host), *final(ark), result),
        alert(*old(host), *old(ark)) ==> concurs(*final(host), *final(ark), result)
            || listens_astray(*old(host), identity, *old(ark)) || !final(ark).apart@,
        final(ark).apart@ ==> old(ark).apart@,
{
    let ghost easy = awaits(*old(host), *old(ark));
    let ghost keen = alert(*old(host), *old(ark));
    let ghost session = ark.host_session;
    let ghost ear = Ear::Recv(host.phase());
    let ghost mut taken: Option<Ark> = None;
    let ghost mut flying: Option<Frame> = None;
    let ghost mut chunks: Seq<Seq<u8>> = Seq::empty();
    let ghost mut arks: Seq<Ark> = seq![*ark];
    let ghost start = host.input();
    proof {
        lemma_in_line(start);
        reveal(Ark::serves);
    }
    loop
        invariant
            old(ark).led(*ark),
            at_rest(*host),
            host.phase() == old(host).phase(),
            start == old(host).input(),
            in_line(framing::extended(start, framing::joined(chunks)), host.input()),
            old(ark).serves(chunks, arks),
            arks.last() == *ark,
            forall|i: int|
                0 <= i < chunks.len() ==> framing::next_item(
                    framing::past_oversized(
                        framing::extended(start, framing::joined(#[trigger] chunks.take(i))),
                    ),
                ) is None,
            easy == awaits(*old(host), *old(ark)),
            easy ==> attends(Call::Recv, host.input(), flying, *ark),
            keen == alert(*old(host), *old(ark)),
            session == old(ark).host_session,
            ear == Ear::Recv(old(host).phase()),
            keen ==> heeds(Call::Recv, session, ear, identity, host.input(), taken, *ark)
                || listens_astray(*old(host), identity, *old(ark)) || !ark.apart@,
            ark.apart@ ==> old(ark).apart@,
        decreases ark.limit - ark.next, ark.frames@.len(), ark.bytes@.len(),
    {
        let ghost total = framing::extended(start, framing::joined(chunks));
        let ghost input = host.input();
        let ghost phase = host.phase();
        proof {
            lemma_level(total, input);
            if easy {
                lemma_attends(Call::Recv, input, flying, *ark);
            }
        }
        let ghost close = keen && !listens_astray(*old(host), identity, *old(ark)) && ark.apart@;
        proof {
            if close {
                lemma_heeds(Call::Recv, session, ear, identity, input, taken, *ark);
            }
        }
        match host.next_message() {
            Some(message) => {
                proof {
                    if close {
                        lemma_heeds_receives(
                            *old(host),
                            session,
                            identity,
                            input,
                            taken->0,
                            *ark,
                            message,
                            *host,
                        );
                    }
                }
                assert(side_host::receives(
                    phase,
                    framing::arrival(framing::next_item(framing::past_oversized(total))->0),
                    message,
                    host.phase(),
                ));
                return match message {
                    Ok(message) => Ok(
                        match read_tag(message.as_slice()) {
                            Some(id) => Expect::Message(id),
                            None => Expect::Failed(Kind::PacketDecoding),
                        },
                    ),
                    Err(error) => failed(error),
                };
            },
            None => match ark.feed() {
                Ok(Fed::Bytes(bytes)) => {
                    host.feed(bytes.as_slice());
                    proof {
                        if easy {
                            flying =
                            lemma_attends_on(
                                Call::Recv,
                                input,
                                flying,
                                arks.last(),
                                bytes@,
                                *ark,
                            );
                        }
                        if close {
                            taken =
                            lemma_heeds_on(
                                Call::Recv,
                                session,
                                ear,
                                identity,
                                input,
                                taken,
                                arks.last(),
                                bytes@,
                                *ark,
                            );
                            assert(!arks.last().strays(ear, identity));
                        }
                        old(ark).lemma_serves_more(chunks, arks, bytes@, *ark);
                        lemma_feed_in_line(start, chunks, input, bytes@);
                        framing::lemma_joined(chunks, bytes@);
                        chunks = chunks.push(bytes@);
                        arks = arks.push(*ark);
                    }
                },
                Ok(Fed::Failed(kind)) => {
                    host.interrupt();
                    proof {
                        if close {
                            lemma_heeds_fails(
                                Call::Recv,
                                session,
                                ear,
                                identity,
                                input,
                                taken,
                                arks.last(),
                                kind,
                                *host,
                                *ark,
                            );
                        }
                    }
                    return Ok(Expect::Failed(kind));
                },
                Err(divergence) => {
                    proof {
                        if close {
                            arks.last().lemma_diverges_strays(
                                divergence,
                                Call::Recv,
                                session,
                                ear,
                                identity,
                                *ark,
                            );
                        }
                    }
                    return Err(divergence);
                },
            },
        }
    }
}

/// Whether a session of the host has sealed all the messages that it can.
spec fn spent(phase: side_host::Phase) -> bool {
    phase matches side_host::Phase::Established(session) && sealing::sender_sequence(
        session.sender,
    ) > u64::MAX
}

/// The host sends a request. In a session it goes out as one frame, which the Ark is
/// to see, or takes the session down on a broken transport. Without one nothing
/// happens.
spec fn requests<'a>(
    host: HostSide,
    after: HostSide,
    ark: Ark<'a>,
    asked: Ark<'a>,
    id: u64,
) -> bool {
    match host.phase() {
        side_host::Phase::Established(session) => if ark.broken {
            &&& after.phase() == side_host::Phase::Idle
            &&& asked == (Ark { host_session: None, outbox: asked.outbox, ..ark })
            &&& asked.outbox.bytes() == ark.outbox.bytes()
        } else {
            let packet = session.next_packet(super::tagged(id));
            let bytes = framing::framed(host.resync(), cobs::cobs_encoded(packet));
            &&& after.phase() matches side_host::Phase::Established(next)
            &&& session.sends(next, super::tagged(id), host.resync(), bytes)
            &&& asked == (Ark { writes: asked.writes, outbox: asked.outbox, ..ark })
            &&& asked.writes@ == ark.writes@.push(Wrote::Request(id))
            &&& asked.outbox.bytes() == ark.outbox.bytes() + bytes
        },
        _ => after.phase() == host.phase() && asked == ark,
    }
}

/// A send on the host and what comes of it. Host and model have to agree on whether
/// there is a session, which has to be able to seal one more message. The Ark then
/// looks at what the host wrote.
spec fn sends<'a>(
    host: HostSide,
    after: HostSide,
    ark: Ark<'a>,
    seen: Ark<'a>,
    id: u64,
    sent: Result<(), Divergence>,
) -> bool {
    &&& seen.apart == ark.apart
    &&& if ark@.host_session is Some != (host.phase() is Established) {
        sent == Err::<(), Divergence>(Divergence::Session) && seen == ark
    } else if spent(host.phase()) {
        sent == Err::<(), Divergence>(Divergence::Sent) && seen == ark
    } else {
        exists|asked: Ark<'a>| #[trigger]
            requests(host, after, ark, asked, id) && match sent {
                Ok(_) => asked.ingests(seen),
                Err(divergence) => asked.misread(divergence),
            }
    }
}

/// Sends a request on the host, checking that it goes out exactly in a session on a
/// working transport.
#[verifier::spinoff_prover]
#[verifier::rlimit(30)]
fn send(host: &mut HostSide, ark: &mut Ark, id: u64) -> (sent: Result<(), Divergence>)
    requires
        old(ark).wf(),
        at_rest(*old(host)),
    ensures
        sent is Ok ==> {
            &&& final(ark).wf()
            &&& at_rest(*final(host))
            &&& final(ark)@ == old(ark)@.sending(id)
        },
        sends(*old(host), *final(host), *old(ark), *final(ark), id, sent),
        old(ark).untouched() && !(old(host).phase() is Established) ==> {
            &&& sent is Ok
            &&& final(ark).untouched()
            &&& final(host).phase() == old(host).phase()
        },
        final(host).input() == old(host).input(),
        old(ark).paused(*final(ark)),
{
    proof {
        reveal(Model::sending);
    }
    let established = ark.host_session.is_some();
    if let Err(divergence) = check_session(host, established) {
        return Err(divergence);
    }
    let sent = match host.send_message(tag(id).as_slice()) {
        Ok(bytes) => if write(host, ark, bytes) {
            Expect::Done
        } else {
            Expect::Failed(Kind::Send)
        },
        Err(error) => match failed(error) {
            Ok(result) => result,
            Err(divergence) => return Err(divergence),
        },
    };
    let expected = if !established {
        Expect::Failed(Kind::Encryption)
    } else if ark.broken {
        Expect::Failed(Kind::Send)
    } else {
        Expect::Done
    };
    if sent != expected {
        return Err(Divergence::Sent);
    }
    if established {
        if ark.broken {
            ark.host_session = None;
        } else {
            ark.writes.push(Wrote::Request(id));
        }
    }
    assert(requests(*old(host), *host, *old(ark), *ark, id));
    ark.ingest()
}

/// An Ark step leaves the call in progress alone, and so does taking in what the
/// host wrote.
proof fn lemma_step_keeps_call(model: Model, step: Step)
    ensures
        model.ingested().call == model.call,
        model.ingested().expect == model.expect,
        model.ingested().queue == model.queue,
        model.executed(step).call == model.call,
        model.executed(step).expect == model.expect,
        model.executed(step).host_seq == model.host_seq,
{
    reveal(Model::ingested);
    reveal(Model::executed);
    lemma_seeing(model, model.writes, model.writes.len() as int);
}

/// No call is in progress once one was counted or a request sent.
proof fn lemma_call_ends(model: Model, handshake: bool, id: u64)
    ensures
        model.counted(handshake).call == Call::Idle,
        model.counted(handshake).expect is None,
        model.sending(id).call == model.call,
        model.sending(id).expect == model.expect,
{
    reveal(Model::counted);
    reveal(Model::sending);
    let over = Model { expect: None, call: Call::Idle, ..model };
    lemma_step_keeps_call(Model { resets: model.resets + 1, ..over }, Step::Recv);
    lemma_step_keeps_call(Model { failures: model.failures + 1, ..over }, Step::Recv);
    lemma_step_keeps_call(Model { handshakes: model.handshakes + 1, ..over }, Step::Recv);
    lemma_step_keeps_call(Model { messages: model.messages + 1, ..over }, Step::Recv);
    lemma_step_keeps_call(model, Step::Recv);
    lemma_step_keeps_call(Model { host_session: None, ..model }, Step::Recv);
    lemma_step_keeps_call(
        Model { writes: model.writes.push(Wrote::Request(id)), ..model },
        Step::Recv,
    );
}

/// A call has come to a result, which ends it, or has diverged from the model.
spec fn closes<'a>(
    result: Result<Expect, Divergence>,
    handshake: bool,
    ark: Ark<'a>,
    after: Ark<'a>,
    made: Result<(), Divergence>,
) -> bool {
    match result {
        Ok(result) => ark.ends(result, handshake, after, made),
        Err(divergence) => made == Err::<(), Divergence>(divergence) && after.apart == ark.apart,
    }
}

/// The model is set to a handshake, in which the host is to write a hello.
spec fn primed<'a>(ark: Ark<'a>, set: Ark<'a>) -> bool {
    &&& set == (Ark {
        host_session: None,
        call: Call::Handshake { generation: (ark.generation + 1) as u64, stale: 0 },
        writes: set.writes,
        ..ark
    })
    &&& set.writes@ == ark.writes@.push(Wrote::Hello)
}

/// A call for a handshake. It fails on a broken transport, which is counted.
#[verifier::opaque]
spec fn calls_handshake<'a>(
    host: HostSide,
    called: HostSide,
    identity: &VerifyingKey,
    ark: Ark<'a>,
    after: Ark<'a>,
    made: Result<(), Divergence>,
) -> bool {
    if ark.broken {
        &&& called.phase() == side_host::Phase::Idle
        &&& if ark.summary.failures == usize::MAX {
            made == Err::<(), Divergence>(Divergence::Setup) && after.apart == ark.apart
        } else {
            &&& made is Ok
            &&& after.outbox.bytes() == ark.outbox.bytes()
            &&& after == (Ark {
                host_session: None,
                summary: Summary {
                    failures: (ark.summary.failures + 1) as usize,
                    ..ark.summary
                },
                outbox: after.outbox,
                ..ark
            })
        }
    } else if ark.generation == u64::MAX {
        made == Err::<(), Divergence>(Divergence::Setup) && after.apart == ark.apart
    } else {
        exists|set: Ark<'a>, shaken: Ark<'a>, result: Result<Expect, Divergence>|
            {
                &&& primed(ark, set)
                &&& #[trigger] shakes(host, called, identity, set, shaken, result)
                &&& closes(result, true, shaken, after, made)
            }
    }
}

/// A call for a receive.
#[verifier::opaque]
spec fn calls_receive<'a>(
    host: HostSide,
    called: HostSide,
    ark: Ark<'a>,
    after: Ark<'a>,
    made: Result<(), Divergence>,
) -> bool {
    exists|set: Ark<'a>, heard: Ark<'a>, result: Result<Expect, Divergence>|
        {
            &&& set == (Ark { call: Call::Recv, ..ark })
            &&& #[trigger] listens(host, called, set, heard, result)
            &&& closes(result, false, heard, after, made)
        }
}

/// A call has come to the predicted result, but the Ark does not open the ack that the host
/// wrote during it, or a key exchange does not agree, though every stranger so far was one.
spec fn closes_astray<'a>(
    phase: side_host::Phase,
    result: Result<Expect, Divergence>,
    handshake: bool,
    ark: Ark<'a>,
) -> bool {
    &&& result matches Ok(result)
    &&& ark.expect == Some(result)
    &&& ark.apart@
    &&& {
        let counted = Ark { expect: None, summary: ark.tallied(result, handshake), ..ark };
        ||| counted.deaf()
        ||| exists|after: Ark<'a>| #[trigger] counted.ingests(after) && discords(phase, after)
    }
}

/// One side does not take a message of the other for what it is during a handshake.
#[verifier::opaque]
spec fn handshake_astray<'a>(host: HostSide, identity: VerifyingKey, ark: Ark<'a>) -> bool {
    exists|set: Ark<'a>|
        {
            &&& #[trigger] primed(ark, set)
            &&& {
                ||| shakes_astray(host, identity, set)
                ||| exists|called: HostSide, shaken: Ark<'a>, result: Result<Expect, Divergence>|
                    #[trigger]
                    shakes(host, called, &identity, set, shaken, result) && closes_astray(
                        called.phase(),
                        result,
                        true,
                        shaken,
                    )
            }
        }
}

/// One side does not take a message of the other for what it is during a receive.
#[verifier::opaque]
spec fn receive_astray<'a>(host: HostSide, identity: VerifyingKey, ark: Ark<'a>) -> bool {
    let set = Ark { call: Call::Recv, ..ark };
    ||| listens_astray(host, identity, set)
    ||| exists|called: HostSide, heard: Ark<'a>, result: Result<Expect, Divergence>| #[trigger]
        listens(host, called, set, heard, result) && closes_astray(
            called.phase(),
            result,
            false,
            heard,
        )
}

/// One side does not take a message of the other for what it is during a call.
spec fn call_astray<'a>(
    host: HostSide,
    identity: VerifyingKey,
    ark: Ark<'a>,
    step: Step,
) -> bool {
    match step {
        Step::Handshake => handshake_astray(host, identity, ark),
        Step::Send(_) => false,
        _ => receive_astray(host, identity, ark),
    }
}

/// Whether host and model agreed before the script moved on to a call.
spec fn poised<'a>(host: HostSide, ark: Ark<'a>) -> bool {
    &&& ark.next > 0
    &&& agrees(host, Ark { next: (ark.next - 1) as usize, ..ark })
}

/// A handshake that is about to start leaves everything else as it was.
proof fn lemma_eager<'a>(host: HostSide, ark: Ark<'a>, set: Ark<'a>)
    requires
        poised(host, ark),
        !ark.broken,
        ark.next <= MAX_STEPS,
        primed(ark, set),
    ensures
        eager(host, set),
{
    let stood = Ark { next: (ark.next - 1) as usize, ..ark };
    assert(stood.even(0));
    assert(set.even(1)) by {
        reveal(Ark::even);
    }
    assert(stood.writes@ =~= Seq::<Wrote>::empty());
    assert(hellos(set.writes@));
    stood.lemma_still_ledger(set);
    assert(later(set.session, (ark.generation + 1) as u64)) by {
        reveal(Ark::ledger);
    }
    stood.lemma_still_capped(set, stood.next as int, set.next as int);
}

/// A receive that is about to start leaves everything else as it was.
proof fn lemma_alert<'a>(host: HostSide, ark: Ark<'a>, set: Ark<'a>)
    requires
        poised(host, ark),
        set == (Ark { call: Call::Recv, ..ark }),
    ensures
        alert(host, set),
{
    let stood = Ark { next: (ark.next - 1) as usize, ..ark };
    stood.lemma_still_even(set, 0);
    stood.lemma_still_ledger(set);
    stood.lemma_still_capped(set, stood.next as int, set.next as int);
}

/// A handshake on a broken transport leaves host and model in agreement.
proof fn lemma_handshake_broken<'a>(
    host: HostSide,
    called: HostSide,
    ark: Ark<'a>,
    after: Ark<'a>,
)
    requires
        poised(host, ark),
        ark.next <= MAX_STEPS,
        called.phase() is Idle,
        called.input() == host.input(),
        after.outbox.bytes() == ark.outbox.bytes(),
        after == (Ark {
            host_session: None,
            summary: Summary { failures: (ark.summary.failures + 1) as usize, ..ark.summary },
            outbox: after.outbox,
            ..ark
        }),
    ensures
        agrees(called, after),
{
    let stood = Ark { next: (ark.next - 1) as usize, ..ark };
    assert(stood.even(0));
    assert(after.even(0)) by {
        reveal(Ark::even);
    }
    stood.lemma_still_capped(after, stood.next as int, after.next as int);
    stood.lemma_still_ledger(after);
}

/// A send leaves host and model in agreement: the Ark opens what the host sealed.
#[verifier::spinoff_prover]
#[verifier::rlimit(40)]
proof fn lemma_sends<'a>(
    host: HostSide,
    after: HostSide,
    ark: Ark<'a>,
    seen: Ark<'a>,
    id: u64,
    sent: Result<(), Divergence>,
)
    requires
        poised(host, ark),
        at_rest(host),
        ark.wf(),
        after.input() == host.input(),
        sends(host, after, ark, seen, id, sent),
    ensures
        sent is Ok,
        agrees(after, seen),
{
    let stood = Ark { next: (ark.next - 1) as usize, ..ark };
    assert(stood.even(0));
    assert(ark@.host_session == ark.host_session);
    let asked = choose|asked: Ark<'a>| #[trigger]
        requests(host, after, ark, asked, id) && match sent {
            Ok(_) => asked.ingests(seen),
            Err(divergence) => asked.misread(divergence),
        };
    stood.lemma_still_capped(asked, stood.next as int, asked.next as int);
    assert(stood.writes@ =~= Seq::<Wrote>::empty());
    assert(ark.written().len() == 0 && super::terminated(ark.outbox.bytes())) by {
        reveal(Ark::even);
    }
    stood.lemma_still_ledger(ark);
    if host.phase() is Established && !ark.broken {
        let session = host.phase()->Established_0;
        let packet = session.next_packet(super::tagged(id));
        let body = cobs::cobs_encoded(packet);
        let resets: nat = if host.resync() {
            1
        } else {
            0
        };
        let missing = Ark { writes: asked.writes, ..ark };
        assert(missing.even(1)) by {
            reveal(Ark::even);
        }
        assert(asked.outbox.bytes() =~= ark.outbox.bytes() + (Seq::new(resets, |i: int| 0u8) + (
        body + seq![0u8])));
        lemma_even_wrote(missing, asked, resets, body);
        assert(asked.written() =~= seq![body]);
        assert(asked.writes@ =~= seq![Wrote::Request(id)]);
        assert(asked.ledger()) by {
            reveal(Ark::ledger);
        }
        if let Err(divergence) = sent {
            lemma_request_opens(session, asked, body, id, divergence);
        }
    } else {
        assert(asked.even(0)) by {
            reveal(Ark::even);
        }
        stood.lemma_still_ledger(asked);
        if let Err(divergence) = sent {
            asked.lemma_misread_deaf(divergence);
            reveal(Ark::deaf);
        }
    }
    asked.lemma_ingested(seen, asked.next as int);
    asked.lemma_ingested_ledger(seen, asked.next as int);
}

/// A request that a host in step wrote is not misread.
proof fn lemma_request_opens<'a>(
    session: Session,
    asked: Ark<'a>,
    body: Seq<u8>,
    id: u64,
    divergence: Divergence,
)
    requires
        asked.even(0),
        asked.written() == seq![body],
        asked.writes@ == seq![Wrote::Request(id)],
        asked.session matches Some(other) && sealing::in_step(session.sender, other.receiver),
        super::holds(
            sealing::sender_context(session.sender),
            sealing::sender_sequence(session.sender),
            body,
            super::tagged(id),
        ),
    ensures
        !asked.misread(divergence),
{
    reveal(Ark::even);
    reveal(Ark::misread);
    if asked.misread(divergence) {
        let arks = choose|arks: Seq<Ark<'a>>| #[trigger]
            asked.sees_all(arks) && asked.stuck(arks, divergence);
        if arks.len() == 1 {
            assert(arks.last() == arks[0]);
            super::lemma_holds(
                sealing::sender_context(session.sender),
                sealing::sender_sequence(session.sender),
                body,
                super::tagged(id),
            );
            super::law_tag_reads_back(id);
        }
    }
}

/// A call that came to the predicted result leaves host and model in agreement, unless the
/// Ark does not open what the host wrote.
#[verifier::spinoff_prover]
#[verifier::rlimit(30)]
proof fn lemma_closes<'a>(
    host: HostSide,
    result: Expect,
    handshake: bool,
    ark: Ark<'a>,
    after: Ark<'a>,
    made: Result<(), Divergence>,
)
    requires
        concurs(host, ark, Ok(result)),
        ark.wf(),
        ark.ends(result, handshake, after, made),
    ensures
        made is Ok && agrees(host, after) || !ark.apart@ || closes_astray(
            host.phase(),
            Ok(result),
            handshake,
            ark,
        ),
{
    let counted = Ark { expect: None, summary: ark.tallied(result, handshake), ..ark };
    ark.lemma_still_even(counted, 0);
    ark.lemma_still_ledger(counted);
    ark.lemma_still_capped(counted, ark.next as int, ark.next as int);
    match made {
        Ok(_) => {
            counted.lemma_ingested(after, counted.next as int);
            counted.lemma_ingested_ledger(after, counted.next as int);
        },
        Err(divergence) => counted.lemma_misread_deaf(divergence),
    }
}

/// Whether a host without a session stands between two frames.
spec fn at_boundary(host: HostSide) -> bool {
    host.phase() is Idle && host.input() == framing::boundary()
}

/// Makes a call into the host and checks its result.
#[verifier::spinoff_prover]
#[verifier::rlimit(30)]
fn call(host: &mut HostSide, ark: &mut Ark, identity: &VerifyingKey, step: &Step) -> (made: Result<
    (),
    Divergence,
>)
    requires
        old(ark).wf(),
        old(ark)@.call == Call::Idle,
        old(ark)@.expect is None,
        at_rest(*old(host)),
        step.calls(),
    ensures
        final(ark).steps == old(ark).steps,
        final(ark).limit == old(ark).limit,
        final(ark).next >= old(ark).next,
        made is Ok ==> {
            let after = called(old(ark)@, old(ark).steps@, old(ark).next as int, *step);
            &&& final(ark).wf()
            &&& at_rest(*final(host))
            &&& final(ark)@ == after.model
            &&& final(ark).next == after.next
            &&& final(ark)@.call == Call::Idle
            &&& final(ark)@.expect is None
        },
        match *step {
            Step::Handshake => calls_handshake(
                *old(host),
                *final(host),
                identity,
                *old(ark),
                *final(ark),
                made,
            ),
            Step::Send(id) => sends(
                *old(host),
                *final(host),
                *old(ark),
                *final(ark),
                id as u64,
                made,
            ),
            _ => calls_receive(*old(host), *final(host), *old(ark), *final(ark), made),
        },
        old(ark).fresh() && at_boundary(*old(host)) && opens_nothing(
            old(ark)@,
            old(ark).steps@,
            old(ark).next as int,
            *step,
        ) ==> {
            &&& made is Ok
            &&& final(ark).untouched()
            &&& final(ark).bytes@.len() == 0
            &&& at_boundary(*final(host))
        },
        poised(*old(host), *old(ark)) ==> made is Ok && agrees(*final(host), *final(ark))
            || call_astray(*old(host), *identity, *old(ark), *step) || !final(ark).apart@,
        final(ark).apart@ ==> old(ark).apart@,
{
    let ghost keen = poised(*old(host), *old(ark));
    let ghost easy = old(ark).fresh() && at_boundary(*old(host)) && opens_nothing(
        old(ark)@,
        old(ark).steps@,
        old(ark).next as int,
        *step,
    );
    match step {
        Step::Handshake => {
            proof {
                reveal(calls_handshake);
            }
            ark.host_session = None;
            proof {
                if easy {
                    old(ark).lemma_still_tidy(*ark, 0);
                }
            }
            // On a broken transport not even the reset gets out, the host failing
            // before reading anything
            if ark.broken {
                match host.handshake(identity) {
                    Progress::Write(bytes) => if write(host, ark, bytes) {
                        return Err(Divergence::Sent);
                    },
                    _ => return Err(Divergence::Surfaced),
                }
                ark.summary.failures = match bump_total(ark.summary.failures) {
                    Ok(next) => next,
                    Err(divergence) => return Err(divergence),
                };
                proof {
                    if easy {
                        reveal(Ark::tidy);
                    }
                    if keen {
                        lemma_handshake_broken(*old(host), *host, *old(ark), *ark);
                    }
                }
                return Ok(());
            }
            let generation: u64 = match bump(ark.generation) {
                Ok(next) => next,
                Err(divergence) => return Err(divergence),
            };
            ark.call = Call::Handshake { generation, stale: 0 };
            ark.writes.push(Wrote::Hello);
            assert(ark@ == old(ark)@.shaking());
            let ghost set = *ark;
            proof {
                if easy {
                    reveal(Ark::tidy);
                    assert(eases(*host, set));
                }
                assert(primed(*old(ark), set));
                if keen {
                    lemma_eager(*old(host), *old(ark), set);
                }
            }
            let result = handshake(host, ark, identity);
            let ghost shaken = *ark;
            proof {
                assert(shakes(*old(host), *host, identity, set, shaken, result));
                assert(shakes_astray(*old(host), *identity, set) || closes_astray(
                    host.phase(),
                    result,
                    true,
                    shaken,
                ) ==> handshake_astray(*old(host), *identity, *old(ark))) by {
                    reveal(handshake_astray);
                }
            }
            match result {
                Ok(result) => {
                    proof {
                        lemma_call_ends(ark@, true, 0);
                    }
                    let made = ark.finish(result, true);
                    proof {
                        if concurs(*host, shaken, Ok(result)) {
                            lemma_closes(*host, result, true, shaken, *ark, made);
                        }
                    }
                    made
                },
                Err(divergence) => Err(divergence),
            }
        },
        Step::Send(id) => {
            proof {
                lemma_call_ends(ark@, false, *id as u64);
            }
            let sent = send(host, ark, *id as u64);
            proof {
                if keen {
                    lemma_sends(*old(host), *host, *old(ark), *ark, *id as u64, sent);
                }
            }
            sent
        },
        _ => {
            ark.call = Call::Recv;
            assert(ark@ == (Model { call: Call::Recv, ..old(ark)@ }));
            let ghost set = *ark;
            proof {
                if easy {
                    old(ark).lemma_still_tidy(set, 0);
                    assert(awaits(*host, set));
                }
                if keen {
                    lemma_alert(*old(host), *old(ark), set);
                }
            }
            let result = receive(host, ark, Ghost(*identity));
            let ghost heard = *ark;
            proof {
                reveal(calls_receive);
                assert(listens(*old(host), *host, set, heard, result));
                assert(listens_astray(*old(host), *identity, set) || closes_astray(
                    host.phase(),
                    result,
                    false,
                    heard,
                ) ==> receive_astray(*old(host), *identity, *old(ark))) by {
                    reveal(receive_astray);
                }
            }
            match result {
                Ok(result) => {
                    proof {
                        lemma_call_ends(ark@, false, 0);
                    }
                    let made = ark.finish(result, false);
                    proof {
                        if concurs(*host, heard, Ok(result)) {
                            lemma_closes(*host, result, false, heard, *ark, made);
                        }
                    }
                    made
                },
                Err(divergence) => Err(divergence),
            }
        },
    }
}

/// The step that the script stands at is run: a call is made into the host, a yield does
/// nothing outside of one, and any other step is executed.
#[verifier::opaque]
spec fn moves<'a>(
    identity: VerifyingKey,
    host: HostSide,
    ark: Ark<'a>,
    moved: HostSide,
    after: Ark<'a>,
    made: Result<(), Divergence>,
) -> bool {
    let step = ark.steps@[ark.next as int];
    let at = Ark { next: (ark.next + 1) as usize, ..ark };
    &&& made is Ok ==> after.wf() && after.steps == ark.steps && after.next > ark.next
    &&& match step {
        Step::Handshake => calls_handshake(host, moved, &identity, at, after, made),
        Step::Send(id) => sends(host, moved, at, after, id as u64, made),
        Step::Recv => calls_receive(host, moved, at, after, made),
        Step::Yield => made is Ok && moved == host && after == at,
        _ => {
            &&& moved == host
            &&& match made {
                Ok(_) => {
                    &&& at.executes(step, after)
                    &&& after@ == at@.executed(step)
                    &&& at.paused(after)
                },
                Err(divergence) => at.stalls(step, divergence) && after.apart == at.apart,
            }
        },
    }
}

/// The step that the script stands at is run without diverging from the model.
spec fn passes<'a>(
    identity: VerifyingKey,
    host: HostSide,
    ark: Ark<'a>,
    moved: HostSide,
    after: Ark<'a>,
) -> bool {
    exists|made: Result<(), Divergence>|
        made is Ok && #[trigger] moves(identity, host, ark, moved, after, made)
}

/// A host without a session in front of an Ark with a device attestation of its own,
/// the script at its start.
spec fn begins<'a>(steps: Seq<Step>, host: HostSide, ark: Ark<'a>) -> bool {
    &&& at_boundary(host)
    &&& !host.resync()
    &&& !host.writing()
    &&& ark.wf()
    &&& ark@ == Model::start()
    &&& ark.steps@ == steps
    &&& ark.next == 0
    &&& ark.outstanding@.len() == 0
    &&& ark.bytes@.len() == 0
    &&& ark.outbox.bytes() == Seq::<u8>::empty()
    &&& ark.apart@
    &&& super::hardware_issued(
        ark.attestation@,
        ""@,
        keys::xdsa_public(ark.identity),
        0,
        0,
        Seq::empty(),
        ""@,
        ark.identity,
    )
}

/// The host and the Ark from the start of a script, before and after each of its steps
/// that the driver runs.
spec fn tours<'a>(
    steps: Seq<Step>,
    identity: VerifyingKey,
    hosts: Seq<HostSide>,
    arks: Seq<Ark<'a>>,
) -> bool {
    &&& hosts.len() == arks.len()
    &&& arks.len() > 0
    &&& begins(steps, hosts[0], arks[0])
    &&& identity == keys::xdsa_public(arks[0].identity)
    &&& forall|j: int|
        0 <= j < arks.len() - 1 ==> (#[trigger] arks[j]).next < arks[j].limit && passes(
            identity,
            hosts[j],
            arks[j],
            hosts[j + 1],
            arks[j + 1],
        )
}

/// One more step is run.
proof fn lemma_tours_on<'a>(
    steps: Seq<Step>,
    identity: VerifyingKey,
    hosts: Seq<HostSide>,
    arks: Seq<Ark<'a>>,
    host: HostSide,
    ark: Ark<'a>,
)
    requires
        tours(steps, identity, hosts, arks),
        arks.last().next < arks.last().limit,
        passes(identity, hosts.last(), arks.last(), host, ark),
    ensures
        tours(steps, identity, hosts.push(host), arks.push(ark)),
{
    let further = hosts.push(host);
    let longer = arks.push(ark);
    assert forall|j: int| 0 <= j < longer.len() - 1 implies (#[trigger] longer[j]).next
        < longer[j].limit && passes(
        identity,
        further[j],
        longer[j],
        further[j + 1],
        longer[j + 1],
    ) by {
        if j < arks.len() - 1 {
            assert(arks[j].next < arks[j].limit);
        }
    }
}

/// What a run comes to, the steps so far having been run. The next step may diverge from
/// the model. Behind the last one the Ark looks at what the host wrote, and the host has
/// to have a session exactly if the model says so. The run is told apart by whether every
/// stranger was one.
spec fn turns_out<'a>(
    identity: VerifyingKey,
    host: HostSide,
    ark: Ark<'a>,
    apart: bool,
    summary: Result<Summary, Divergence>,
) -> bool {
    if ark.next < ark.limit {
        &&& summary matches Err(divergence)
        &&& exists|moved: HostSide, after: Ark<'a>| #[trigger]
            moves(identity, host, ark, moved, after, Err(divergence)) && apart == after.apart@
    } else {
        let established = host.phase() is Established;
        &&& apart == ark.apart@
        &&& match summary {
            Ok(summary) => exists|seen: Ark<'a>| #[trigger]
                ark.ingests(seen) && (seen.host_session is Some) == established && summary == (
                Summary { established, ..seen.summary }),
            Err(divergence) => {
                ||| ark.misread(divergence)
                ||| divergence == Divergence::Session && exists|seen: Ark<'a>| #[trigger]
                    ark.ingests(seen) && (seen.host_session is Some) != established
            },
        }
    }
}

/// One side does not take a message of the other for what it is at the step that the script
/// stands at, or behind the last one: the host does not open an ArkHello that answers its
/// hello or refuses a flawed one for another reason than its flaw, or opens something that
/// was not sealed for it, or the Ark does not open an ack, or a key exchange does not
/// agree, though every stranger so far was one.
spec fn misled<'a>(identity: VerifyingKey, host: HostSide, ark: Ark<'a>) -> bool {
    let step = ark.steps@[ark.next as int];
    let at = Ark { next: (ark.next + 1) as usize, ..ark };
    if ark.next >= ark.limit {
        ark.deaf() && ark.apart@
    } else if step.calls() {
        call_astray(host, identity, at, step)
    } else {
        !(step is Yield) && at.deaf() && at.apart@
    }
}

/// Whether some message was not taken for what it was.
spec fn strays<'a>(identity: VerifyingKey, hosts: Seq<HostSide>, arks: Seq<Ark<'a>>) -> bool {
    exists|j: int|
        0 <= j < arks.len() && #[trigger] misled(identity, hosts[j], arks[j])
}

/// A message that was not taken for what it was stays so.
proof fn lemma_strays_on<'a>(
    identity: VerifyingKey,
    hosts: Seq<HostSide>,
    arks: Seq<Ark<'a>>,
    host: HostSide,
    ark: Ark<'a>,
)
    requires
        strays(identity, hosts, arks),
        hosts.len() == arks.len(),
    ensures
        strays(identity, hosts.push(host), arks.push(ark)),
{
    let j = choose|j: int|
        0 <= j < arks.len() && #[trigger] misled(identity, hosts[j], arks[j]);
    assert(misled(identity, hosts.push(host)[j], arks.push(ark)[j]));
}

/// Whether a run of a script from its start comes to a result, step by step: a run that
/// diverges does so at the first step that does, with what diverged there. Unless its junk
/// fits no frame, or a key drawn in place of the right one, to make a flawed ArkHello,
/// happened to be it, a handshake went wrong by then, or something opened that was not
/// sealed for it. The run is told apart by whether every such key was another one.
pub closed spec fn unfolds(
    steps: Seq<Step>,
    apart: bool,
    summary: Result<Summary, Divergence>,
) -> bool {
    exists|identity: VerifyingKey, hosts: Seq<HostSide>, arks: Seq<Ark>|
        {
            &&& #[trigger] tours(steps, identity, hosts, arks)
            &&& turns_out(identity, hosts.last(), arks.last(), apart, summary)
            &&& summary is Err && junk_fits(steps) && apart ==> strays(identity, hosts, arks)
        }
}

/// Whether every handshake goes right in every run of a script, whatever keys are drawn:
/// the host opens the ArkHellos that answer its hellos and refuses the flawed ones for
/// their flaws, the Ark opens the acks, the key exchanges agree, and nothing opens that was
/// not sealed for it, as long as every key drawn in place of the right one is another.
pub closed spec fn faithful(steps: Seq<Step>) -> bool {
    forall|identity: VerifyingKey, hosts: Seq<HostSide>, arks: Seq<Ark>| #[trigger]
        tours(steps, identity, hosts, arks) ==> !strays(identity, hosts, arks)
}

/// A run goes through in which the messages of every handshake are taken for what they are,
/// its key exchanges agree and nothing else opens, as long as the junk of its script fits
/// frames and every key drawn in place of the right one is another.
pub proof fn law_faithful_runs_through(steps: Seq<Step>, summary: Result<Summary, Divergence>)
    requires
        unfolds(steps, true, summary),
        faithful(steps),
        junk_fits(steps),
    ensures
        summary is Ok,
{
}

/// A run comes to the same whatever the size of the pieces in which its frames arrive, as
/// long as the messages of every handshake are taken for what they are, its key exchanges
/// agree, nothing else opens, the junk fits frames and every key drawn in place of the right
/// one is another.
pub proof fn law_piece_size_faithful(
    steps: Seq<Step>,
    size: u8,
    pieced: Result<Summary, Divergence>,
    whole: Result<Summary, Divergence>,
)
    requires
        steps.len() < MAX_STEPS,
        junk_fits(steps),
        faithful(steps),
        faithful(seq![Step::Chunk(size)] + steps),
        unfolds(seq![Step::Chunk(size)] + steps, true, pieced),
        unfolds(steps, true, whole),
        pieced matches Ok(pieced) ==> summarizes(pieced, seq![Step::Chunk(size)] + steps),
        whole matches Ok(whole) ==> summarizes(whole, steps),
    ensures
        pieced == whole,
        whole is Ok,
{
    let longer = seq![Step::Chunk(size)] + steps;
    assert(junk_fits(longer)) by {
        reveal(junk_fits);
        assert forall|i: int| 0 <= i < run_length(longer) implies fits(#[trigger] longer[i]) by {
            if i > 0 {
                assert(longer[i] == steps[i - 1]);
            }
        }
    }
    law_faithful_runs_through(longer, pieced);
    law_faithful_runs_through(steps, whole);
    law_piece_size(steps, size, pieced->Ok_0, whole->Ok_0);
}

/// A step that is executed leaves host and model in agreement, and one that cannot be is
/// one at which the Ark does not open what the host wrote.
proof fn lemma_step_agrees<'a>(
    host: HostSide,
    ark: Ark<'a>,
    step: Step,
    after: Ark<'a>,
    made: Result<(), Divergence>,
)
    requires
        agrees(host, ark),
        ark.wf(),
        ark.next < ark.limit,
        fits(step),
        !step.calls(),
        !(step is Yield),
        ({
            let at = Ark { next: (ark.next + 1) as usize, ..ark };
            match made {
                Ok(_) => at.executes(step, after) && after@ == at@.executed(step),
                Err(divergence) => at.stalls(step, divergence),
            }
        }),
    ensures
        made is Ok ==> agrees(host, after),
        made is Err ==> (Ark { next: (ark.next + 1) as usize, ..ark }).deaf(),
{
    let at = Ark { next: (ark.next + 1) as usize, ..ark };
    ark.lemma_still_even(at, 0);
    ark.lemma_still_ledger(at);
    ark.lemma_still_capped(at, ark.next as int, ark.next as int);
    match made {
        Ok(_) => {
            at.lemma_executed_roomy(step, after);
            at.lemma_executed_ledger(step, after);
        },
        Err(divergence) => at.lemma_stalls_deaf(step, divergence),
    }
}

/// Runs a script against a real host, stopping at any divergence from the model, and
/// reports what the run observed. A script that runs through is summarized as the
/// model says. Whether a packet opens rests on fresh keys agreeing and on flawed frames
/// being told apart: a run that diverges, though its junk fits frames, has come to a
/// handshake whose messages were not taken for what they are or whose key exchanges did not
/// agree, or to something that opened without having been sealed for it. A script in which
/// the host opens no packet runs through.
#[verifier::spinoff_prover]
#[verifier::rlimit(30)]
pub fn run(steps: &[Step]) -> (summary: Result<Summary, Divergence>)
    ensures
        summary matches Ok(summary) ==> summarizes(summary, steps@),
        undecided(steps@) ==> summary is Ok,
        exists|apart: bool| #[trigger] unfolds(steps@, apart, summary),
{
    let signer = SigningKey::generate();
    let attestation = self_attestation(&signer);
    let identity = signer.public_key();
    let mut ark = Ark::new(steps, signer, attestation);
    let mut host = HostSide::new();
    let ghost mut hosts: Seq<HostSide> = seq![host];
    let ghost mut arks: Seq<Ark> = seq![ark];
    assert(tours(steps@, identity, hosts, arks));
    proof {
        assert(ark.writes@ == ark@.writes);
        ark.lemma_nothing();
        assert(ark.frames@ == ark@.queue);
        assert(ark.ledger()) by {
            reveal(Ark::ledger);
        }
        assert(ark.bounded());
    }
    while ark.next < ark.limit
        invariant
            ark.wf(),
            ark.steps == steps,
            ark@.call == Call::Idle,
            ark@.expect is None,
            at_rest(host),
            ran(ark@, steps@, ark.next as int) == ran(Model::start(), steps@, 0),
            undecided(steps@) ==> {
                &&& ark.untouched()
                &&& ark.bytes@.len() == 0
                &&& at_boundary(host)
                &&& undecided_from(ark@, steps@, ark.next as int)
            },
            junk_fits(steps@) ==> agrees(host, ark) || strays(identity, hosts, arks)
                || !ark.apart@,
            tours(steps@, identity, hosts, arks),
            hosts.last() == host,
            arks.last() == ark,
        decreases ark.limit - ark.next,
    {
        let ghost from = host;
        let ghost stood = ark;
        let step: &Step = &ark.steps[ark.next];
        ark.next = ark.next + 1;
        proof {
            reveal(moves);
            lemma_step_keeps_call(stood@, *step);
            if undecided(steps@) {
                stood.lemma_still_tidy(ark, 0);
            }
            if stood.even(0) {
                stood.lemma_still_even(ark, 0);
            }
            if stood.ledger() {
                stood.lemma_still_ledger(ark);
            }
            assert((Ark { next: (ark.next - 1) as usize, ..ark }) == stood);
        }
        let made = if step.is_call() {
            call(&mut host, &mut ark, &identity, step)
        } else if let Step::Yield = step {
            Ok(())
        } else {
            ark.execute(step)
        };
        assert(moves(identity, from, stood, host, ark, made));
        proof {
            if junk_fits(steps@) && agrees(from, stood) && !step.calls() && !(*step is Yield) {
                assert(fits(*step)) by {
                    reveal(junk_fits);
                }
                lemma_step_agrees(from, stood, *step, ark, made);
            }
            let last = arks.len() - 1;
            assert(misled(identity, hosts[last], arks[last]) ==> strays(identity, hosts, arks));
        }
        if let Err(divergence) = made {
            assert(turns_out(identity, from, stood, ark.apart@, Err(divergence)));
            assert(unfolds(steps@, ark.apart@, Err(divergence)));
            return Err(divergence);
        }
        proof {
            if strays(identity, hosts, arks) {
                lemma_strays_on(identity, hosts, arks, host, ark);
            }
            lemma_tours_on(steps@, identity, hosts, arks, host, ark);
            hosts = hosts.push(host);
            arks = arks.push(ark);
        }
    }
    let ghost last = ark;
    proof {
        let end = arks.len() - 1;
        assert(misled(identity, hosts[end], arks[end]) ==> strays(identity, hosts, arks));
    }
    if let Err(divergence) = ark.ingest() {
        proof {
            if junk_fits(steps@) && agrees(host, last) {
                last.lemma_misread_deaf(divergence);
            }
            assert(turns_out(identity, host, last, last.apart@, Err(divergence)));
            assert(unfolds(steps@, last.apart@, Err(divergence)));
        }
        return Err(divergence);
    }
    proof {
        if agrees(host, last) {
            last.lemma_ingested(ark, last.next as int);
        }
        reveal(Model::ingested);
        let end = ran(Model::start(), steps@, 0);
        lemma_seeing(end, end.writes, end.writes.len() as int);
        assert(arks.last().ingests(ark));
    }
    let established = ark.host_session.is_some();
    if let Err(divergence) = check_session(&mut host, established) {
        assert(turns_out(identity, hosts.last(), last, last.apart@, Err(divergence)));
        assert(unfolds(steps@, last.apart@, Err(divergence)));
        return Err(divergence);
    }
    let summary = Summary { established, ..ark.summary };
    assert(turns_out(identity, hosts.last(), last, last.apart@, Ok(summary)));
    assert(unfolds(steps@, last.apart@, Ok(summary)));
    Ok(summary)
}

/// Number of calls that a script counts the result of, from one position to another:
/// handshakes and receipts.
pub open spec fn calls_between(steps: Seq<Step>, from: int, to: int) -> nat
    decreases to - from,
{
    if from >= to {
        0
    } else {
        calls_between(steps, from + 1, to) + if steps[from] is Handshake || steps[from] is Recv {
            1nat
        } else {
            0nat
        }
    }
}

/// Calls are counted position by position.
proof fn lemma_calls_split(steps: Seq<Step>, from: int, middle: int, to: int)
    requires
        from <= middle <= to,
    ensures
        calls_between(steps, from, to) == calls_between(steps, from, middle) + calls_between(
            steps,
            middle,
            to,
        ),
    decreases middle - from,
{
    if from < middle {
        lemma_calls_split(steps, from + 1, middle, to);
    }
}

/// Results counted so far.
spec fn tally(model: Model) -> nat {
    model.handshakes + model.messages + model.resets + model.failures
}

/// A session of the host is there only if a handshake succeeded, or has just done so.
spec fn credited(model: Model, handshake: bool) -> bool {
    &&& model.host_session is Some ==> model.handshakes >= 1 || (handshake && model.expect == Some(
        Expect::Done,
    ))
    &&& model.call is Handshake ==> handshake
    &&& model.call != Call::Idle ==> (model.host_session is Some ==> model.handshakes >= 1)
}

/// What an Ark step does counts no result.
proof fn lemma_executed_tally(model: Model, step: Step, handshake: bool)
    requires
        credited(model, handshake),
    ensures
        tally(model.executed(step)) == tally(model),
        credited(model.executed(step), handshake),
{
    reveal(Model::executed);
    reveal(Model::ingested);
    lemma_seeing(model, model.writes, model.writes.len() as int);
}

/// Reading counts no result, and passes over no call.
proof fn lemma_reading_tally(model: Model, steps: Seq<Step>, next: int, handshake: bool)
    requires
        0 <= next <= run_length(steps),
        credited(model, handshake),
    ensures
        ({
            let read = reading(model, steps, next);
            &&& tally(read.model) == tally(model)
            &&& read.model.handshakes == model.handshakes
            &&& next <= read.next <= run_length(steps)
            &&& calls_between(steps, next, read.next) == 0
            &&& credited(read.model, handshake)
        }),
    decreases remaining(steps, next), model.queue.len(),
{
    if model.call == Call::Idle {
    } else if model.queue.len() > 0 {
        reveal(Model::consumed);
        let left = model.queue.skip(1);
        let consumed = Model { queue: left, ..model.consumed(model.queue[0]) };
        lemma_reading_tally(consumed, steps, next, handshake);
    } else if next < run_length(steps) && !steps[next].calls() && !(steps[next] is Yield) {
        lemma_executed_tally(model, steps[next], handshake);
        lemma_executed_handshakes(model, steps[next]);
        lemma_reading_tally(model.executed(steps[next]), steps, next + 1, handshake);
    } else if next < run_length(steps) && steps[next] is Yield {
        assert(calls_between(steps, next + 1, next + 1) == 0);
    }
}

/// What an Ark step does completes no handshake.
proof fn lemma_executed_handshakes(model: Model, step: Step)
    ensures
        model.executed(step).handshakes == model.handshakes,
{
    reveal(Model::executed);
    reveal(Model::ingested);
    lemma_seeing(model, model.writes, model.writes.len() as int);
}

/// Every handshake and receipt left in a script adds one result.
proof fn lemma_ran_tally(model: Model, steps: Seq<Step>, next: int)
    requires
        0 <= next <= run_length(steps),
        model.call == Call::Idle,
        model.host_session is Some ==> model.handshakes >= 1,
        model.expect is None,
    ensures
        tally(ran(model, steps, next)) == tally(model) + calls_between(
            steps,
            next,
            run_length(steps),
        ),
        ran(model, steps, next).host_session is Some ==> ran(model, steps, next).handshakes >= 1,
    decreases remaining(steps, next),
{
    if next < run_length(steps) {
        let step = steps[next];
        if step.calls() {
            let after = called(model, steps, next + 1, step);
            reveal(Model::counted);
            reveal(Model::ingested);
            reveal(Model::sending);
            match step {
                Step::Handshake => {
                    if !model.broken {
                        let read = reading(model.shaking(), steps, next + 1);
                        lemma_reading_tally(model.shaking(), steps, next + 1, true);
                        lemma_counted_tally(read.model, true);
                    }
                },
                Step::Send(id) => {
                    lemma_sending_tally(model, id as u64);
                },
                _ => {
                    let receiving = Model { call: Call::Recv, ..model };
                    let read = reading(receiving, steps, next + 1);
                    lemma_reading_tally(receiving, steps, next + 1, false);
                    lemma_counted_tally(read.model, false);
                },
            }
            lemma_calls_split(steps, next + 1, after.next, run_length(steps));
            lemma_ran_tally(after.model, steps, after.next);
        } else if step is Yield {
            lemma_ran_tally(model, steps, next + 1);
        } else {
            lemma_executed_tally(model, step, false);
            lemma_executed_handshakes(model, step);
            lemma_step_keeps_call(model, step);
            lemma_ran_tally(model.executed(step), steps, next + 1);
        }
    }
}

/// The result of a call is counted once, and a session that it left is that of a handshake
/// which is counted too.
proof fn lemma_counted_tally(model: Model, handshake: bool)
    requires
        credited(model, handshake),
    ensures
        ({
            let counted = model.counted(handshake);
            &&& tally(counted) == tally(model) + 1
            &&& counted.host_session is Some ==> counted.handshakes >= 1
            &&& counted.call == Call::Idle
            &&& counted.expect is None
        }),
{
    reveal(Model::counted);
    reveal(Model::ingested);
    let base = Model { expect: None, call: Call::Idle, ..model };
    let resets = Model { resets: model.resets + 1, ..base };
    let failures = Model { failures: model.failures + 1, ..base };
    let handshakes = Model { handshakes: model.handshakes + 1, ..base };
    let messages = Model { messages: model.messages + 1, ..base };
    let size = model.writes.len() as int;
    lemma_seeing(resets, model.writes, size);
    lemma_seeing(failures, model.writes, size);
    lemma_seeing(handshakes, model.writes, size);
    lemma_seeing(messages, model.writes, size);
}

/// A send is counted as no result.
proof fn lemma_sending_tally(model: Model, id: u64)
    ensures
        ({
            let sent = model.sending(id);
            &&& tally(sent) == tally(model)
            &&& sent.handshakes == model.handshakes
            &&& sent.host_session is Some ==> model.host_session is Some
            &&& sent.call == model.call
            &&& sent.expect == model.expect
        }),
{
    reveal(Model::sending);
    reveal(Model::ingested);
    let ended = Model { host_session: None, ..model };
    let longer = Model { writes: model.writes.push(Wrote::Request(id)), ..model };
    lemma_seeing(model, model.writes, model.writes.len() as int);
    lemma_seeing(ended, ended.writes, ended.writes.len() as int);
    lemma_seeing(longer, longer.writes, longer.writes.len() as int);
}

/// Every handshake and every receipt among the first sixty-four steps of a script comes to
/// exactly one result, which the summary counts, and nothing else is counted. A host that
/// ends up with a session had a handshake that succeeded.
pub proof fn law_every_call_counts(summary: Summary, steps: Seq<Step>)
    requires
        summarizes(summary, steps),
    ensures
        summary.handshakes + summary.messages + summary.resets + summary.failures == calls_between(
            steps,
            0,
            if steps.len() < 64 {
                steps.len() as int
            } else {
                64
            },
        ),
        summary.established ==> summary.handshakes >= 1,
{
    let start = Model::start();
    lemma_ran_tally(start, steps, 0);
    let end = ran(start, steps, 0);
    reveal(Model::ingested);
    lemma_seeing(end, end.writes, end.writes.len() as int);
}

/// An ArkHello with a flaw never opens a session. One that answers the hello of the
/// handshake fails it, and one that answers another is skipped.
pub proof fn law_flawed_hello_opens_nothing(
    model: Model,
    generation: u64,
    stale: usize,
    answered: u64,
    flaw: Flaw,
)
    requires
        flaw != Flaw::Intact,
        model.host_session is None,
    ensures
        ({
            let after = model.greeted(Frame::ArkHello { generation: answered, flaw }, generation, stale);
            &&& after.host_session is None
            &&& after.writes == model.writes
            &&& answered == generation && flaw == Flaw::Attest ==> after.expect == Some(
                Expect::Failed(Kind::InvalidAttestation),
            )
            &&& answered == generation && flaw != Flaw::Attest ==> after.expect == Some(
                Expect::Failed(Kind::Handshake),
            )
            &&& answered != generation && stale < 32 ==> after.expect == model.expect && after.call
                == (Call::Handshake { generation, stale: (stale + 1) as usize })
        }),
{
}

/// A reply is read exactly once and in order: only the one sealed at the host's position of
/// its own session is, and it takes the host to the next position. Any other ends the
/// session.
pub proof fn law_reply_is_read_in_order(
    model: Model,
    session: u64,
    seq: u64,
    tag: u8,
    garbage: bool,
)
    ensures
        ({
            let after = model.received(Frame::Sealed { session, seq, tag, garbage });
            if model.host_session == Some(session) && seq == model.host_seq {
                &&& after.host_session == model.host_session
                &&& after.host_seq == model.host_seq + 1
                &&& !garbage ==> after.expect == Some(Expect::Message(tag as u64))
                &&& garbage ==> after.expect == Some(Expect::Failed(Kind::PacketDecoding))
            } else {
                &&& after.host_session is None
                &&& after.expect == Some(Expect::Failed(Kind::Encryption))
            }
        }),
{
}

/// Errors that the model tells apart have kinds of their own, and only an error of size has
/// none.
pub proof fn law_kinds_tell_apart(left: Error, right: Error)
    ensures
        kind_of(left) is None <==> left is PacketTooLarge || left is FrameTooLarge,
        kind_of(left) is Some && kind_of(left) == kind_of(right) ==> left.name() == right.name(),
        kind_of(left) != Some(Kind::PacketDecoding),
{
}

/// The payload of a flawed ArkHello is what its flaw says: a single string, a key that is
/// none, an encapsulated key of another size, or else an attestation and two keys.
pub proof fn law_flawed_payloads(
    identity: SigningKey,
    attest: Seq<u8>,
    flaw: Flaw,
    pending: Pending,
    list: Seq<Seq<u8>>,
)
    requires
        hello_list(identity, attest, flaw, pending, list),
        keys::sender_encap(pending.sender).len() == keys::ENCAP_KEY_SIZE,
    ensures
        flaw == Flaw::Payload <==> list.len() != 3,
        flaw == Flaw::Payload ==> list.len() == 1,
        flaw != Flaw::Payload ==> {
            &&& flaw == Flaw::Encap <==> list[2].len() != keys::ENCAP_KEY_SIZE
            &&& flaw != Flaw::Encap ==> list[2] == keys::sender_encap(pending.sender)
            &&& flaw != Flaw::Attest ==> list[0] == attest
            &&& flaw != Flaw::Key ==> list[1] == keys::xhpke_bytes(keys::xhpke_public(pending.key))
            &&& flaw == Flaw::Key ==> list[1].len() == keys::ENCRYPTION_KEY_SIZE && forall|i: int|
                0 <= i < list[1].len() ==> list[1][i] == 0xff
        },
{
}

/// The result of a call is counted under what it is: a reset that a receipt surfaced, any
/// other error, a handshake that succeeded or a message read.
pub proof fn law_result_is_counted(model: Model, handshake: bool)
    ensures
        ({
            let counted = model.counted(handshake);
            let failed = model.expect matches Some(Expect::Failed(_));
            let reset = model.expect == Some(Expect::Failed(Kind::SessionReset)) && !handshake;
            &&& counted.resets == model.resets + (if reset {
                1int
            } else {
                0
            })
            &&& counted.failures == model.failures + (if failed && !reset {
                1int
            } else {
                0
            })
            &&& counted.handshakes == model.handshakes + (if !failed && handshake {
                1int
            } else {
                0
            })
            &&& counted.messages == model.messages + (if !failed && !handshake {
                1int
            } else {
                0
            })
            &&& counted.host_session == model.host_session
        }),
{
    reveal(Model::counted);
    reveal(Model::ingested);
    let base = Model { expect: None, call: Call::Idle, ..model };
    let resets = Model { resets: model.resets + 1, ..base };
    let failures = Model { failures: model.failures + 1, ..base };
    let handshakes = Model { handshakes: model.handshakes + 1, ..base };
    let messages = Model { messages: model.messages + 1, ..base };
    let size = model.writes.len() as int;
    lemma_seeing(resets, model.writes, size);
    lemma_seeing(failures, model.writes, size);
    lemma_seeing(handshakes, model.writes, size);
    lemma_seeing(messages, model.writes, size);
}

} // verus!
