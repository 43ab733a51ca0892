//! Server side of the wire, accepting encrypted sessions over a byte stream.
//! Receiving handles client resets and handshakes. Each successful handshake
//! hands out a sender. Later input delivers decrypted messages or reports that
//! the session ended.
//!
//! On a local disconnect, a session failure, a failed handshake or data received
//! outside a session, the server attempts an empty frame notification. A client
//! receiving it drops its old session.
//!
//! The server is driven from outside: it is fed the bytes read, and each step of
//! receiving says what to read or write next. Times are nanoseconds on a clock
//! of the driver's.

use darkbio_crypto::xdsa::{PublicKey as VerifyingKey, SecretKey as SigningKey};
use darkbio_crypto::xhpke::{PublicKey as EncryptionKey, Receiver as OpeningContext};
use vstd::prelude::*;

pub use super::attestation::{Attestation, Attester};

use super::attestation;
use super::cobs;
use super::envelope;
use super::framing;
use super::framing::{Arrival, FrameReader, Input};
use super::handshake;
use super::handshake::Pending;
use super::io::{check_deadline, ErrorKind};
use super::keys;
use super::outbound;
use super::outbound::{Outbound, Output, Sender};
use super::sealing;
use super::session::Session;
use super::Error;
use crate::bytes::replace;

verus! {

/// Budget of a handshake unless another is set.
pub const DEFAULT_HANDSHAKE_TIMEOUT: u64 = 10_000_000_000;

/// A decrypted message or a session transition. Events arrive in receive order
/// and refer to sessions over the existing byte stream.
pub enum Event {
    /// A handshake completed and established an encrypted session. The sender
    /// belongs to that session and cannot send into a later replacement.
    Connected(Sender),
    /// The previously opened session ended through a peer reset, invalid incoming
    /// data or an observed send failure. After a peer reset, receiving goes on
    /// with the handshake.
    Disconnected,
    /// A decrypted message from the client.
    Message(Vec<u8>),
}

/// What receiving needs next.
pub enum Step {
    /// More input, by the deadline if there is one.
    Read(Option<u64>),
    /// Another call, the frame at hand having been absorbed.
    Again,
    /// The bytes to be written and flushed, by the deadline if there is one, and
    /// the outcome reported.
    Write(Vec<u8>, Option<u64>),
    /// Delivery of an event.
    Event(Event),
    /// Delivery of an error.
    Failed(Error),
}

/// Progress of the handshake, each stage with the deadline of the attempt.
pub enum Stage {
    /// No handshake is in progress.
    Idle,
    /// A reset arrived, the handshake is to start.
    Requested(u64),
    /// A HostHello is awaited.
    AwaitHello(u64),
    /// The ArkHello went out, a HostAck is awaited.
    AwaitAck(Pending, u64),
    /// The HostAck completed the handshake, the session is to start.
    Accepted(Session, u64),
}

/// What is still to be told once the outstanding output is settled.
#[derive(Clone, Copy, PartialEq, Eq, Structural)]
pub enum Report {
    /// Nothing.
    Nothing,
    /// The session ended.
    Disconnected,
    /// The ArkHello could not be written.
    SendFailed(ErrorKind),
    /// A handshake failed, which its deadline may have run out over.
    Refused(u64),
}

/// The server retires its session and tells the client with an empty frame.
pub open spec fn signals(
    before: Outbound,
    after: Outbound,
    step: Step,
    limit: Option<u64>,
) -> bool {
    &&& step matches Step::Write(bytes, deadline)
    &&& bytes@ == framing::framed(before.resync(), Seq::empty())
    &&& deadline == limit
    &&& outbound::outbound_writes(before, after, Output::Signal, true)
}

/// A session is retired if it is still the bound one, with no output.
pub open spec fn retires(before: Outbound, after: Outbound, session: u64) -> bool {
    &&& after.context() == (if before.bound_is(session) {
        None
    } else {
        before.context()
    })
    &&& outbound::same_but_context(before, after)
}

/// What became of a packet opened with a session's receiving context.
pub open spec fn delivers(receiver: OpeningContext, next: OpeningContext) -> bool {
    &&& sealing::receiver_context(next) == sealing::receiver_context(receiver)
    &&& sealing::receiver_sequence(next) == sealing::receiver_sequence(receiver) + 1
}

/// What receiving does outside of a handshake. A reset ends the session and
/// requests a handshake. A packet of the bound session is delivered. Everything
/// else ends the session, which the client is told.
pub open spec fn serves<A: Attester>(
    before: Server<A>,
    after: Server<A>,
    sent: Outbound,
    out: Outbound,
    arrival: Arrival,
    now: u64,
    step: Step,
) -> bool {
    let held = before.receiver() is Some;
    match (arrival, before.receiver()) {
        (Arrival::Reset, _) => {
            &&& step == Step::Event(Event::Disconnected) <==> held
            &&& step is Again <==> !held
            &&& after.stage() == Stage::Requested((now + before.timeout()) as u64)
            &&& after.report() == Report::Nothing
            &&& after.receiver() is None
            &&& retires(sent, out, before.session())
        },
        (Arrival::Packet(packet), Some(receiver)) => {
            let context = sealing::receiver_context(receiver);
            let sequence = sealing::receiver_sequence(receiver);
            &&& sealing::reads_back(context, sequence, packet)
            &&& match sealing::message_of(context, sequence, packet) {
                Some(message) if sent.bound_is(before.session()) => {
                    &&& step matches Step::Event(Event::Message(bytes))
                    &&& bytes@ == message
                    &&& after.stage() == Stage::Idle
                    &&& after.report() == Report::Nothing
                    &&& after.receiver() matches Some(next)
                    &&& delivers(receiver, next)
                    &&& after.session() == before.session()
                    &&& out == sent
                },
                _ => {
                    &&& signals(sent, out, step, None)
                    &&& after.stage() == Stage::Idle
                    &&& after.report() == Report::Disconnected
                    &&& after.receiver() is None
                },
            }
        },
        _ => {
            &&& signals(sent, out, step, None)
            &&& after.stage() == Stage::Idle
            &&& after.report() == (if held {
                Report::Disconnected
            } else {
                Report::Nothing
            })
            &&& after.receiver() is None
        },
    }
}

/// A handshake fails: the client is told within the attempt's deadline.
pub open spec fn refuses(
    after: Stage,
    report: Report,
    sent: Outbound,
    out: Outbound,
    deadline: u64,
    step: Step,
) -> bool {
    &&& signals(sent, out, step, Some(deadline))
    &&& after == Stage::Idle
    &&& report == Report::Refused(deadline)
}

/// The keys of a valid hello are answered with an ArkHello that presents the
/// attestation, is sealed to the keys and put on the wire as one frame.
pub open spec fn answers(
    hello: (VerifyingKey, EncryptionKey),
    attest: Seq<u8>,
    signer: SigningKey,
    timestamp: Option<i64>,
    after: Stage,
    report: Report,
    sent: Outbound,
    out: Outbound,
    deadline: u64,
    step: Step,
) -> bool {
    &&& after matches Stage::AwaitAck(pending, until)
    &&& until == deadline
    &&& report == Report::Nothing
    &&& step matches Step::Write(bytes, limit)
    &&& limit == Some(deadline)
    &&& outbound::outbound_writes(sent, out, Output::Packet, false)
    &&& pending.host_signer == hello.0
    &&& exists|packet: Seq<u8>|
        {
            &&& #[trigger] pending.announced(packet, attest, signer, hello.1, timestamp)
            &&& cobs::encoded_bound(packet.len() as int) <= super::MAX_FRAME_SIZE
            &&& cobs::carries(cobs::cobs_encoded(packet), packet)
            &&& bytes@ == framing::framed(sent.resync(), cobs::cobs_encoded(packet))
        }
}

/// The server responds to the keys of a valid hello with an answer that presents
/// the attestation. One that fits no frame fails the handshake.
pub open spec fn responds(
    hello: (VerifyingKey, EncryptionKey),
    attest: Seq<u8>,
    signer: SigningKey,
    timestamp: Option<i64>,
    after: Stage,
    report: Report,
    sent: Outbound,
    out: Outbound,
    deadline: u64,
    step: Step,
) -> bool {
    &&& attestation::device_token(attest)
    &&& {
        ||| answers(
            hello,
            attest,
            signer,
            timestamp,
            after,
            report,
            sent,
            out,
            deadline,
            step,
        )
        ||| {
            &&& refuses(after, report, sent, out, deadline, step)
            &&& handshake::unwieldy(attest, signer, hello.1, timestamp)
        }
    }
}

/// A valid hello is refused if the attestation presented is as long as a frame.
pub proof fn law_long_attestation_refused(
    hello: (VerifyingKey, EncryptionKey),
    attest: Seq<u8>,
    signer: SigningKey,
    timestamp: Option<i64>,
    after: Stage,
    report: Report,
    sent: Outbound,
    out: Outbound,
    deadline: u64,
    step: Step,
)
    requires
        responds(
            hello,
            attest,
            signer,
            timestamp,
            after,
            report,
            sent,
            out,
            deadline,
            step,
        ),
        attest.len() >= super::MAX_FRAME_SIZE,
    ensures
        refuses(after, report, sent, out, deadline, step),
{
}

/// The server responds to the keys of a valid hello with what the attester
/// presents.
pub open spec fn welcomes<A: Attester>(
    attester: A,
    next: A,
    hello: (VerifyingKey, EncryptionKey),
    signer: SigningKey,
    timestamp: Option<i64>,
    after: Stage,
    report: Report,
    sent: Outbound,
    out: Outbound,
    deadline: u64,
    step: Step,
) -> bool {
    exists|attest: Seq<u8>|
        {
            &&& attester.presents(attest, &next)
            &&& #[trigger] responds(
                hello,
                attest,
                signer,
                timestamp,
                after,
                report,
                sent,
                out,
                deadline,
                step,
            )
        }
}

/// What receiving does with a frame during a handshake, by its stage. A repeated
/// reset does not refresh the deadline: it goes back to awaiting a hello. The
/// attester is asked for an attestation to answer a valid hello with.
pub open spec fn negotiates<A: Attester>(
    before: Stage,
    after: Stage,
    report: Report,
    sent: Outbound,
    out: Outbound,
    attester: A,
    next: A,
    signer: SigningKey,
    timestamp: Option<i64>,
    arrival: Arrival,
    step: Step,
) -> bool {
    match (before, arrival) {
        (Stage::AwaitHello(deadline), Arrival::Packet(packet)) => {
            match handshake::hello_keys(packet) {
                Some(hello) => welcomes(
                    attester,
                    next,
                    hello,
                    signer,
                    timestamp,
                    after,
                    report,
                    sent,
                    out,
                    deadline,
                    step,
                ),
                None => next == attester && refuses(after, report, sent, out, deadline, step),
            }
        },
        _ => {
            &&& next == attester
            &&& advances(before, after, report, sent, out, signer, arrival, step)
        },
    }
}

/// What receiving does with anything but a packet in place of a hello.
pub open spec fn advances(
    before: Stage,
    after: Stage,
    report: Report,
    sent: Outbound,
    out: Outbound,
    signer: SigningKey,
    arrival: Arrival,
    step: Step,
) -> bool {
    match (before, arrival) {
        (Stage::AwaitHello(deadline), Arrival::Reset) => {
            &&& step is Again
            &&& after == Stage::AwaitHello(deadline)
            &&& report == Report::Nothing
            &&& out == sent
        },
        (Stage::AwaitHello(deadline), _) => refuses(after, report, sent, out, deadline, step),
        (Stage::AwaitAck(_, deadline), Arrival::Reset) => {
            &&& step is Again
            &&& after == Stage::AwaitHello(deadline)
            &&& report == Report::Nothing
            &&& out == sent
        },
        (Stage::AwaitAck(pending, deadline), Arrival::Packet(packet)) => {
            match handshake::ack_context(packet, pending, keys::xdsa_public(signer)) {
                Some(context) => {
                    &&& step is Again
                    &&& after matches Stage::Accepted(session, until)
                    &&& until == deadline
                    &&& session.sender == pending.sender
                    &&& sealing::receiver_context(session.receiver) == context
                    &&& sealing::receiver_sequence(session.receiver) == 0
                    &&& report == Report::Nothing
                    &&& out == sent
                },
                None => refuses(after, report, sent, out, deadline, step),
            }
        },
        (Stage::AwaitAck(_, deadline), _) => refuses(after, report, sent, out, deadline, step),
        _ => false,
    }
}

/// Whether receiving is in the middle of a handshake whose deadline ran out.
pub open spec fn expired(stage: Stage, now: u64) -> bool {
    match stage {
        Stage::AwaitHello(deadline) => now >= deadline,
        Stage::AwaitAck(_, deadline) => now >= deadline,
        Stage::Accepted(_, deadline) => now >= deadline,
        _ => false,
    }
}

/// Deadline of the reads in a stage.
pub open spec fn read_limit(stage: Stage) -> Option<u64> {
    match stage {
        Stage::AwaitHello(deadline) => Some(deadline),
        Stage::AwaitAck(_, deadline) => Some(deadline),
        _ => None,
    }
}

/// One step of receiving. What is still to be told comes first. Then a requested
/// handshake starts, an expired one fails, and an accepted one establishes its
/// session. Otherwise the next frame is served.
pub open spec fn receives<A: Attester>(
    before: Server<A>,
    after: Server<A>,
    sent: Outbound,
    out: Outbound,
    now: u64,
    step: Step,
) -> bool {
    let told = {
        &&& after.report() == Report::Nothing
        &&& after.stage() == before.stage()
        &&& after.receiver() == before.receiver()
        &&& after.session() == before.session()
        &&& after.input() == before.input()
        &&& after.attester() == before.attester()
        &&& out == sent
    };
    &&& after.signer() == before.signer()
    &&& after.timeout() == before.timeout()
    &&& after.timestamp() == before.timestamp()
    &&& match (before.report(), before.stage()) {
        (Report::Disconnected, _) => told && step == Step::Event(Event::Disconnected),
        (Report::SendFailed(kind), _) => told && step == Step::Failed(Error::SendFailed(kind)),
        (Report::Refused(deadline), _) => {
            &&& told
            &&& step == if now >= deadline {
                Step::Failed(Error::RecvFailed(ErrorKind::TimedOut))
            } else {
                Step::Again
            }
        },
        (Report::Nothing, Stage::Requested(deadline)) => {
            &&& step is Again
            &&& after.stage() == Stage::AwaitHello(deadline)
            &&& after.report() == Report::Nothing
            &&& after.receiver() == before.receiver()
            &&& after.session() == before.session()
            &&& after.input() == before.input()
            &&& after.attester() == before.attester()
            &&& out.context() is None
            &&& outbound::same_but_context(sent, out)
        },
        (Report::Nothing, stage) if expired(stage, now) => {
            &&& step == Step::Failed(Error::RecvFailed(ErrorKind::TimedOut))
            &&& after.stage() == Stage::Idle
            &&& after.report() == Report::Nothing
            &&& after.receiver() == before.receiver()
            &&& after.session() == before.session()
            &&& after.input() == before.input()
            &&& after.attester() == before.attester()
            &&& out == sent
        },
        (Report::Nothing, Stage::Accepted(session, _)) => {
            &&& step matches Step::Event(Event::Connected(sender))
            &&& sender.session() == out.bound()
            &&& after.stage() == Stage::Idle
            &&& after.report() == Report::Nothing
            &&& after.receiver() == Some(session.receiver)
            &&& after.session() == out.bound()
            &&& after.input() == before.input()
            &&& after.attester() == before.attester()
            &&& out.sessions() == sent.sessions() + 1
            &&& out.context() == Some(session.sender)
            &&& out.resync() == sent.resync()
            &&& out.side() == sent.side()
            &&& out.output() == sent.output()
        },
        (Report::Nothing, stage) => {
            &&& after.input() == framing::after_item(before.input())
            &&& match framing::next_item(before.input()) {
                None => {
                    &&& step == Step::Read(read_limit(stage))
                    &&& after.stage() == stage
                    &&& after.report() == Report::Nothing
                    &&& after.receiver() == before.receiver()
                    &&& after.session() == before.session()
                    &&& after.attester() == before.attester()
                    &&& out == sent
                },
                Some(item) => if stage is Idle {
                    &&& after.attester() == before.attester()
                    &&& serves(before, after, sent, out, framing::arrival(item), now, step)
                } else {
                    &&& after.receiver() == before.receiver()
                    &&& after.session() == before.session()
                    &&& negotiates(
                        stage,
                        after.stage(),
                        after.report(),
                        sent,
                        out,
                        before.attester(),
                        after.attester(),
                        before.signer(),
                        before.timestamp(),
                        framing::arrival(item),
                        step,
                    )
                },
            }
        },
    }
}

/// What the outcome of an output does to receiving. An ArkHello that did not go out ends
/// the handshake, which is told next.
pub open spec fn settles<A: Attester>(
    before: Server<A>,
    after: Server<A>,
    output: Output,
    outcome: Result<(), ErrorKind>,
) -> bool {
    &&& after.input() == before.input()
    &&& after.signer() == before.signer()
    &&& after.timestamp() == before.timestamp()
    &&& after.attester() == before.attester()
    &&& after.receiver() == before.receiver()
    &&& after.session() == before.session()
    &&& after.timeout() == before.timeout()
    &&& match (output, outcome) {
        (Output::Packet, Err(kind)) => {
            &&& after.stage() == Stage::Idle
            &&& after.report() == Report::SendFailed(kind)
        },
        _ => {
            &&& after.stage() == before.stage()
            &&& after.report() == before.report()
        },
    }
}

/// What a disconnect on behalf of the owner does. The session ends in both directions and
/// the client is told. A handshake that a reset requested stays pending.
pub open spec fn disconnects<A: Attester>(
    before: Server<A>,
    after: Server<A>,
    sent: Outbound,
    out: Outbound,
    signal: Seq<u8>,
) -> bool {
    &&& signal == framing::framed(sent.resync(), Seq::empty())
    &&& outbound::outbound_writes(sent, out, Output::Signal, true)
    &&& after.receiver() is None
    &&& after.input() == before.input()
    &&& after.signer() == before.signer()
    &&& after.timestamp() == before.timestamp()
    &&& after.attester() == before.attester()
    &&& after.session() == before.session()
    &&& after.timeout() == before.timeout()
    &&& after.stage() == before.stage()
    &&& after.report() == before.report()
}

/// Deadline of the handshake in progress.
pub open spec fn handshake_deadline(stage: Stage) -> Option<u64> {
    match stage {
        Stage::Idle => None,
        Stage::Requested(deadline) => Some(deadline),
        Stage::AwaitHello(deadline) => Some(deadline),
        Stage::AwaitAck(_, deadline) => Some(deadline),
        Stage::Accepted(_, deadline) => Some(deadline),
    }
}

/// Server side of the wire. An `Attester` supplies the device attestation, which
/// is forwarded to the client, whose verifier decides whether to trust it.
pub struct Server<A: Attester> {
    reader: FrameReader,  // Frames received
    signer: SigningKey,  // Server's identity key, signing the ArkHello
    attester: A,  // Source of the device attestation for handshakes
    receiver: Option<OpeningContext>,  // Receiving context of the session
    session: u64,  // Number of the session the receiving context belongs to
    timeout: u64,  // Budget for each new handshake attempt
    stage: Stage,  // Handshake in progress
    report: Report,  // What is to be told after the output
    timestamp: Option<i64>,  // Signing time of the ArkHello, the clock's otherwise
}

impl<A: Attester> Server<A> {
    /// Input received and not used up yet.
    pub closed spec fn input(self) -> Input {
        self.reader@
    }

    /// Identity key of the server.
    pub closed spec fn signer(self) -> SigningKey {
        self.signer
    }

    /// Source of the device attestation.
    pub closed spec fn attester(self) -> A {
        self.attester
    }

    /// Receiving context of the session.
    pub closed spec fn receiver(self) -> Option<OpeningContext> {
        self.receiver
    }

    /// Number of the session that the receiving context belongs to.
    pub closed spec fn session(self) -> u64 {
        self.session
    }

    /// Budget of each new handshake attempt.
    pub closed spec fn timeout(self) -> u64 {
        self.timeout
    }

    /// Signing time of the ArkHellos, the clock's if there is none.
    pub closed spec fn timestamp(self) -> Option<i64> {
        self.timestamp
    }

    /// Handshake in progress.
    pub closed spec fn stage(self) -> Stage {
        self.stage
    }

    /// What is to be told after the output.
    pub closed spec fn report(self) -> Report {
        self.report
    }

    /// There is no session while a handshake is in progress, nor while the end of
    /// one is still to be told.
    pub open spec fn consistent(self) -> bool {
        &&& !(self.stage() is Idle) ==> self.receiver() is None
        &&& self.report() == Report::Disconnected ==> self.receiver() is None
        &&& !(self.report() is Nothing) ==> self.stage() is Idle
    }

    /// Creates a server without a session. The signer is the server's identity
    /// key. It must match the key embedded in the device attestation.
    pub fn new(signer: SigningKey, attester: A) -> (server: Server<A>)
        ensures
            server.input() == framing::boundary(),
            server.signer() == signer,
            server.attester() == attester,
            server.receiver() is None,
            server.session() == outbound::UNBOUND,
            server.timeout() == DEFAULT_HANDSHAKE_TIMEOUT,
            server.stage() == Stage::Idle,
            server.report() == Report::Nothing,
            server.timestamp() is None,
    {
        Server {
            reader: FrameReader::new(),
            signer,
            attester,
            receiver: None,
            session: outbound::UNBOUND,
            timeout: DEFAULT_HANDSHAKE_TIMEOUT,
            stage: Stage::Idle,
            report: Report::Nothing,
            timestamp: None,
        }
    }

    /// Creates a server that signs its ArkHellos at the given time instead of the
    /// clock's.
    pub fn new_at(signer: SigningKey, attester: A, timestamp: i64) -> (server: Server<A>)
        ensures
            server.input() == framing::boundary(),
            server.signer() == signer,
            server.attester() == attester,
            server.receiver() is None,
            server.session() == outbound::UNBOUND,
            server.timeout() == DEFAULT_HANDSHAKE_TIMEOUT,
            server.stage() == Stage::Idle,
            server.report() == Report::Nothing,
            server.timestamp() == Some(timestamp),
    {
        let mut server = Server::new(signer, attester);
        server.timestamp = Some(timestamp);
        server
    }

    /// Sets the budget for each subsequent handshake, starting when a reset is
    /// received. Output and peer replies share one deadline; progress and repeated
    /// resets within the attempt do not refresh it. An already pending handshake
    /// keeps its deadline. Zero expires attempts immediately.
    pub fn set_handshake_timeout(self, timeout: u64) -> (server: Server<A>)
        ensures
            server.timeout() == timeout,
            server.input() == self.input(),
            server.signer() == self.signer(),
            server.timestamp() == self.timestamp(),
            server.attester() == self.attester(),
            server.receiver() == self.receiver(),
            server.session() == self.session(),
            server.stage() == self.stage(),
            server.report() == self.report(),
    {
        let mut server = self;
        server.timeout = timeout;
        server
    }

    /// Takes in bytes received from the client.
    pub fn feed(&mut self, bytes: &[u8])
        ensures
            final(self).input() == framing::extended(old(self).input(), bytes@),
            final(self).signer() == old(self).signer(),
            final(self).timestamp() == old(self).timestamp(),
            final(self).attester() == old(self).attester(),
            final(self).receiver() == old(self).receiver(),
            final(self).session() == old(self).session(),
            final(self).timeout() == old(self).timeout(),
            final(self).stage() == old(self).stage(),
            final(self).report() == old(self).report(),
    {
        self.reader.feed(bytes);
    }

    /// Abandons a handshake in progress, as a failed read does. A session and a
    /// handshake that is still to start are left alone.
    pub fn interrupt(&mut self)
        ensures
            final(self).stage() == (match old(self).stage() {
                Stage::Requested(deadline) => Stage::Requested(deadline),
                _ => Stage::Idle,
            }),
            final(self).input() == old(self).input(),
            final(self).signer() == old(self).signer(),
            final(self).timestamp() == old(self).timestamp(),
            final(self).attester() == old(self).attester(),
            final(self).receiver() == old(self).receiver(),
            final(self).session() == old(self).session(),
            final(self).timeout() == old(self).timeout(),
            final(self).report() == old(self).report(),
    {
        let stage = replace(&mut self.stage, Stage::Idle);
        self.stage = match stage {
            Stage::Requested(deadline) => Stage::Requested(deadline),
            _ => Stage::Idle,
        };
    }

    /// Receives a decrypted message or a session transition, one step at a time.
    /// A client reset starts a handshake, whose completion hands out a sender
    /// before any messages from that session are delivered.
    ///
    /// A client reset or invalid incoming data ends the current session. Oversized
    /// frames count as invalid data. After a reset, the handshake runs under one
    /// deadline starting at that reset. Expiry fails the call and a fresh reset can
    /// start another attempt. Junk outside a session and handshake failures are
    /// answered with an empty frame and skipped. A handshake write failure fails
    /// the call.
    pub fn recv(&mut self, outbound: &mut Outbound, now: u64) -> (step: Step)
        requires
            old(outbound).output() == Output::Settled,
            old(outbound).sessions() < u64::MAX,
            now + old(self).timeout() <= u64::MAX,
        ensures
            receives(*old(self), *final(self), *old(outbound), *final(outbound), now, step),
    {
        let report = self.report;
        self.report = Report::Nothing;
        match report {
            Report::Nothing => {},
            Report::Disconnected => return Step::Event(Event::Disconnected),
            Report::SendFailed(kind) => return Step::Failed(Error::SendFailed(kind)),
            Report::Refused(deadline) => return match check_deadline(now, deadline) {
                Ok(_) => Step::Again,
                Err(kind) => Step::Failed(Error::RecvFailed(kind)),
            },
        }
        let stage = replace(&mut self.stage, Stage::Idle);
        match stage {
            Stage::Idle => self.serve(outbound, now),
            Stage::Requested(deadline) => {
                outbound.unbind();
                self.stage = Stage::AwaitHello(deadline);
                Step::Again
            },
            Stage::AwaitHello(deadline) => match check_deadline(now, deadline) {
                Ok(_) => self.await_hello(outbound, deadline),
                Err(kind) => Step::Failed(Error::RecvFailed(kind)),
            },
            Stage::AwaitAck(pending, deadline) => match check_deadline(now, deadline) {
                Ok(_) => self.await_ack(outbound, pending, deadline),
                Err(kind) => Step::Failed(Error::RecvFailed(kind)),
            },
            Stage::Accepted(session, deadline) => match check_deadline(now, deadline) {
                Ok(_) => {
                    let Session { sender, receiver } = session;
                    let handle = outbound.bind(sender);
                    self.receiver = Some(receiver);
                    self.session = outbound.session_id();
                    Step::Event(Event::Connected(handle))
                },
                Err(kind) => Step::Failed(Error::RecvFailed(kind)),
            },
        }
    }

    /// Serves the next frame outside of a handshake.
    fn serve(&mut self, outbound: &mut Outbound, now: u64) -> (step: Step)
        requires
            old(self).stage == Stage::Idle,
            old(self).report == Report::Nothing,
            old(outbound).output() == Output::Settled,
            old(outbound).sessions() < u64::MAX,
            now + old(self).timeout <= u64::MAX,
        ensures
            receives(*old(self), *final(self), *old(outbound), *final(outbound), now, step),
    {
        let packet = match self.reader.next_packet() {
            None => return Step::Read(None),
            // The frame may have carried a sealed message, so the session cannot
            // continue past it
            Some(Err(_)) => {
                if self.end_session(outbound) {
                    self.report = Report::Disconnected;
                }
                return Step::Write(outbound.send_dropped(), None);
            },
            // A reset ends any active session and requests a handshake
            Some(Ok(None)) => {
                self.stage = Stage::Requested(now + self.timeout);
                return if self.end_session(outbound) {
                    Step::Event(Event::Disconnected)
                } else {
                    Step::Again
                };
            },
            Some(Ok(Some(packet))) => packet,
        };
        let mut receiver = match self.receiver.take() {
            None => return Step::Write(outbound.send_dropped(), None),
            Some(receiver) => receiver,
        };
        let opened = sealing::open(&mut receiver, packet.as_slice());
        match outbound.finish_receive(self.session, opened) {
            Ok(message) => {
                self.receiver = Some(receiver);
                Step::Event(Event::Message(message))
            },
            Err(_) => {
                outbound.end(self.session);
                self.report = Report::Disconnected;
                Step::Write(outbound.send_dropped(), None)
            },
        }
    }

    /// Reads the HostHello, skipping trailing empty reset frames, and answers it.
    fn await_hello(&mut self, outbound: &mut Outbound, deadline: u64) -> (step: Step)
        requires
            old(self).stage == Stage::Idle,
            old(self).report == Report::Nothing,
            old(outbound).output() == Output::Settled,
        ensures
            final(self).signer == old(self).signer,
            final(self).timestamp == old(self).timestamp,
            final(self).timeout == old(self).timeout,
            final(self).receiver == old(self).receiver,
            final(self).session == old(self).session,
            final(self).reader@ == framing::after_item(old(self).reader@),
            match framing::next_item(old(self).reader@) {
                None => {
                    &&& step == Step::Read(Some(deadline))
                    &&& final(self).stage == Stage::AwaitHello(deadline)
                    &&& final(self).report == Report::Nothing
                    &&& final(self).attester == old(self).attester
                    &&& *final(outbound) == *old(outbound)
                },
                Some(item) => negotiates(
                    Stage::AwaitHello(deadline),
                    final(self).stage,
                    final(self).report,
                    *old(outbound),
                    *final(outbound),
                    old(self).attester,
                    final(self).attester,
                    old(self).signer,
                    old(self).timestamp,
                    framing::arrival(item),
                    step,
                ),
            },
    {
        let packet = match self.reader.next_packet() {
            None => {
                self.stage = Stage::AwaitHello(deadline);
                return Step::Read(Some(deadline));
            },
            Some(Err(_)) => return self.refuse(outbound, deadline),
            Some(Ok(None)) => {
                self.stage = Stage::AwaitHello(deadline);
                return Step::Again;
            },
            Some(Ok(Some(packet))) => packet,
        };
        let hello = match handshake::read_hello(packet.as_slice()) {
            Ok(hello) => hello,
            Err(_) => return self.refuse(outbound, deadline),
        };
        let attestation = self.attester.attest();
        let ghost attest = attestation@;
        let step = self.respond(outbound, hello, attestation, deadline);
        assert(responds(
            hello,
            attest,
            self.signer,
            self.timestamp,
            self.stage,
            self.report,
            *old(outbound),
            *outbound,
            deadline,
            step,
        ));
        step
    }

    /// Responds to the keys of a HostHello with an attestation.
    fn respond(
        &mut self,
        outbound: &mut Outbound,
        hello: (VerifyingKey, EncryptionKey),
        attestation: Attestation,
        deadline: u64,
    ) -> (step: Step)
        requires
            old(self).stage == Stage::Idle,
            old(self).report == Report::Nothing,
            old(outbound).output() == Output::Settled,
        ensures
            final(self).reader == old(self).reader,
            final(self).signer == old(self).signer,
            final(self).timestamp == old(self).timestamp,
            final(self).attester == old(self).attester,
            final(self).timeout == old(self).timeout,
            final(self).receiver == old(self).receiver,
            final(self).session == old(self).session,
            responds(
                hello,
                attestation@,
                old(self).signer,
                old(self).timestamp,
                final(self).stage,
                final(self).report,
                *old(outbound),
                *final(outbound),
                deadline,
                step,
            ),
    {
        match handshake::answer_keys(hello, &self.signer, attestation, self.timestamp) {
            Err(_) => self.refuse(outbound, deadline),
            Ok((pending, answer)) => match outbound.send_packet(answer.as_slice()) {
                Err(_) => self.refuse(outbound, deadline),
                Ok(bytes) => {
                    self.stage = Stage::AwaitAck(pending, deadline);
                    Step::Write(bytes, Some(deadline))
                },
            },
        }
    }

    /// Reads the HostAck and opens the session it completes. An empty frame is
    /// another reset: this attempt is discarded and the next hello awaited.
    fn await_ack(&mut self, outbound: &mut Outbound, pending: Pending, deadline: u64) -> (step:
        Step)
        requires
            old(self).stage == Stage::Idle,
            old(self).report == Report::Nothing,
            old(outbound).output() == Output::Settled,
        ensures
            final(self).signer == old(self).signer,
            final(self).timestamp == old(self).timestamp,
            final(self).timeout == old(self).timeout,
            final(self).receiver == old(self).receiver,
            final(self).session == old(self).session,
            final(self).reader@ == framing::after_item(old(self).reader@),
            match framing::next_item(old(self).reader@) {
                None => {
                    &&& step == Step::Read(Some(deadline))
                    &&& final(self).stage == Stage::AwaitAck(pending, deadline)
                    &&& final(self).report == Report::Nothing
                    &&& final(self).attester == old(self).attester
                    &&& *final(outbound) == *old(outbound)
                },
                Some(item) => negotiates(
                    Stage::AwaitAck(pending, deadline),
                    final(self).stage,
                    final(self).report,
                    *old(outbound),
                    *final(outbound),
                    old(self).attester,
                    final(self).attester,
                    old(self).signer,
                    old(self).timestamp,
                    framing::arrival(item),
                    step,
                ),
            },
    {
        let packet = match self.reader.next_packet() {
            None => {
                self.stage = Stage::AwaitAck(pending, deadline);
                return Step::Read(Some(deadline));
            },
            Some(Err(_)) => return self.refuse(outbound, deadline),
            Some(Ok(None)) => {
                self.stage = Stage::AwaitHello(deadline);
                return Step::Again;
            },
            Some(Ok(Some(packet))) => packet,
        };
        match handshake::accept_ack(pending, packet.as_slice(), &self.signer.public_key()) {
            Ok(session) => {
                self.stage = Stage::Accepted(session, deadline);
                Step::Again
            },
            Err(_) => self.refuse(outbound, deadline),
        }
    }

    /// Tells the client that the handshake did not establish a session.
    fn refuse(&mut self, outbound: &mut Outbound, deadline: u64) -> (step: Step)
        requires
            old(self).stage == Stage::Idle,
            old(outbound).output() == Output::Settled,
        ensures
            final(self).reader == old(self).reader,
            final(self).signer == old(self).signer,
            final(self).timestamp == old(self).timestamp,
            final(self).attester == old(self).attester,
            final(self).timeout == old(self).timeout,
            final(self).receiver == old(self).receiver,
            final(self).session == old(self).session,
            refuses(
                final(self).stage,
                final(self).report,
                *old(outbound),
                *final(outbound),
                deadline,
                step,
            ),
    {
        self.report = Report::Refused(deadline);
        Step::Write(outbound.send_dropped(), Some(deadline))
    }

    /// Ends the current binding and releases the receiving context. Returns
    /// whether there was one, even if a send failure already ended the binding.
    fn end_session(&mut self, outbound: &mut Outbound) -> (ended: bool)
        ensures
            ended == (old(self).receiver is Some),
            final(self).receiver is None,
            final(self).reader == old(self).reader,
            final(self).signer == old(self).signer,
            final(self).timestamp == old(self).timestamp,
            final(self).attester == old(self).attester,
            final(self).session == old(self).session,
            final(self).timeout == old(self).timeout,
            final(self).stage == old(self).stage,
            final(self).report == old(self).report,
            retires(*old(outbound), *final(outbound), old(self).session),
    {
        outbound.end(self.session);
        self.receiver.take().is_some()
    }

    /// Reports the outcome of the output handed out by receiving. A failed ArkHello
    /// ends the handshake, which receiving then fails with. The signal it may hand
    /// out shares the failed frame's deadline.
    pub fn sent(&mut self, outbound: &mut Outbound, outcome: Result<(), ErrorKind>) -> (signal:
        Option<Vec<u8>>)
        ensures
            outbound::outbound_settles(*old(outbound), *final(outbound), outcome, signal),
            settles(*old(self), *final(self), old(outbound).output(), outcome),
    {
        if outbound.awaits_packet() {
            if let Err(kind) = outcome {
                self.stage = Stage::Idle;
                self.report = Report::SendFailed(kind);
            }
        }
        outbound.sent(outcome)
    }

    /// Ends the encrypted session and tells the client with an empty frame. The
    /// stream remains available for the client to connect again. Receiving does
    /// not report the end, as the caller already knows. A handshake that a reset
    /// requested stays pending.
    pub fn disconnect(&mut self, outbound: &mut Outbound) -> (signal: Vec<u8>)
        requires
            old(outbound).output() == Output::Settled,
        ensures
            disconnects(*old(self), *final(self), *old(outbound), *final(outbound), signal@),
    {
        self.end_session(outbound);
        outbound.send_dropped()
    }
}

/// Progress and repeated resets within a handshake do not refresh its deadline:
/// a step leaves it as it is, or ends the handshake.
pub proof fn law_handshake_keeps_deadline<A: Attester>(
    before: Server<A>,
    after: Server<A>,
    sent: Outbound,
    out: Outbound,
    now: u64,
    step: Step,
)
    requires
        receives(before, after, sent, out, now, step),
        handshake_deadline(before.stage()) is Some,
    ensures
        handshake_deadline(after.stage()) == handshake_deadline(before.stage())
            || after.stage() == Stage::Idle,
{
}

/// A handshake that has run out of time establishes no session and answers no
/// hello. Receiving fails instead, and a fresh reset can start another attempt.
pub proof fn law_expired_handshake_fails<A: Attester>(
    before: Server<A>,
    after: Server<A>,
    sent: Outbound,
    out: Outbound,
    now: u64,
    step: Step,
)
    requires
        receives(before, after, sent, out, now, step),
        before.report() == Report::Nothing,
        expired(before.stage(), now),
    ensures
        step == Step::Failed(Error::RecvFailed(ErrorKind::TimedOut)),
        after.stage() == Stage::Idle,
        after.input() == before.input(),
        out == sent,
{
}

/// A handshake runs without a session, and the end of a session is told without
/// one. Every step of receiving keeps it that way.
pub proof fn law_handshake_has_no_session<A: Attester>(
    before: Server<A>,
    after: Server<A>,
    sent: Outbound,
    out: Outbound,
    now: u64,
    step: Step,
)
    requires
        receives(before, after, sent, out, now, step),
        before.consistent(),
    ensures
        after.consistent(),
{
}

/// Receiving tells the end of a session once: afterward there is none to end
/// until a handshake establishes another.
pub proof fn law_disconnected_once<A: Attester>(
    before: Server<A>,
    after: Server<A>,
    sent: Outbound,
    out: Outbound,
    now: u64,
    step: Step,
)
    requires
        receives(before, after, sent, out, now, step),
        before.consistent(),
        before.receiver() is None,
        before.report() != Report::Disconnected,
    ensures
        step != Step::Event(Event::Disconnected),
        !(step matches Step::Event(Event::Message(_))),
        after.report() != Report::Disconnected,
        after.receiver() is Some ==> step matches Step::Event(Event::Connected(_)),
{
}

/// Whether a session was told to be there whose end was not told yet.
pub open spec fn open_session<A: Attester>(server: Server<A>) -> bool {
    server.receiver() is Some || server.report() == Report::Disconnected
}

/// Whether the session told to be there is still there after a step, if the step may
/// come where it does: a session connects where there is none, and only one that is
/// there delivers messages and disconnects.
pub open spec fn follows(open: bool, step: Step) -> Option<bool> {
    match step {
        Step::Event(Event::Connected(_)) => if open {
            None
        } else {
            Some(true)
        },
        Step::Event(Event::Message(_)) => if open {
            Some(true)
        } else {
            None
        },
        Step::Event(Event::Disconnected) => if open {
            Some(false)
        } else {
            None
        },
        _ => Some(open),
    }
}

/// Whether a session is there after a series of steps, if each may come where it does.
/// What happens between two steps of receiving tells nothing.
pub open spec fn ordered(open: bool, steps: Seq<Option<Step>>) -> Option<bool>
    decreases steps.len(),
{
    if steps.len() == 0 {
        Some(open)
    } else {
        match (ordered(open, steps.drop_last()), steps.last()) {
            (Some(open), Some(step)) => follows(open, step),
            (before, _) => before,
        }
    }
}

/// What feeding input, reporting the outcome of an output and a failed read do to a
/// server between two steps of receiving.
pub open spec fn carries_on<A: Attester>(before: Server<A>, after: Server<A>) -> bool {
    &&& after.receiver() == before.receiver()
    &&& {
        ||| after.report() == before.report() && (after.stage() == before.stage()
            || after.stage() == Stage::Idle)
        ||| after.report() is SendFailed && before.stage() is AwaitAck && after.stage()
            == Stage::Idle
    }
}

/// A server goes from one state to the next by a step of receiving, or by what happens
/// between two of them.
pub open spec fn goes_on<A: Attester>(
    before: Server<A>,
    after: Server<A>,
    step: Option<Step>,
) -> bool {
    match step {
        Some(step) => exists|sent: Outbound, out: Outbound, now: u64| #[trigger]
            receives(before, after, sent, out, now, step),
        None => carries_on(before, after),
    }
}

/// However a server is driven, the events that it tells come in the order of their
/// sessions: each is told to be connected, then delivers its messages, and then
/// disconnects, before another connects.
pub proof fn law_events_in_order<A: Attester>(
    servers: Seq<Server<A>>,
    steps: Seq<Option<Step>>,
)
    requires
        servers.len() == steps.len() + 1,
        servers[0].consistent(),
        forall|i: int|
            0 <= i < steps.len() ==> goes_on(#[trigger] servers[i], servers[i + 1], steps[i]),
    ensures
        servers.last().consistent(),
        ordered(open_session(servers[0]), steps) == Some(open_session(servers.last())),
    decreases steps.len(),
{
    if steps.len() > 0 {
        let earlier = servers.drop_last();
        let last = steps.len() - 1;
        assert forall|i: int| 0 <= i < last implies goes_on(
            #[trigger] earlier[i],
            earlier[i + 1],
            steps.drop_last()[i],
        ) by {
            assert(goes_on(servers[i], servers[i + 1], steps[i]));
        }
        law_events_in_order(earlier, steps.drop_last());
        assert(goes_on(servers[last], servers[last + 1], steps[last]));
        if let Some(step) = steps[last] {
            let (sent, out, now) = choose|sent: Outbound, out: Outbound, now: u64| #[trigger]
                receives(servers[last], servers[last + 1], sent, out, now, step);
            law_handshake_has_no_session(
                servers[last],
                servers[last + 1],
                sent,
                out,
                now,
                step,
            );
        }
    }
}

/// A sender handed out for a session can send until that session ends, and no
/// sender of an earlier session can.
pub proof fn law_connected_sender_is_bound<A: Attester>(
    before: Server<A>,
    after: Server<A>,
    sent: Outbound,
    out: Outbound,
    now: u64,
    sender: Sender,
    earlier: Sender,
)
    requires
        receives(before, after, sent, out, now, Step::Event(Event::Connected(sender))),
        earlier.session() <= sent.sessions(),
    ensures
        out.bound_is(sender.session()),
        !out.bound_is(earlier.session()),
        after.session() == sender.session(),
{
}

/// A message is delivered only out of a session, and is the one that the next packet holds
/// at the server's position in it. The position then advances by one.
pub proof fn law_message_is_authentic<A: Attester>(
    before: Server<A>,
    after: Server<A>,
    sent: Outbound,
    out: Outbound,
    now: u64,
    message: Vec<u8>,
)
    requires
        receives(before, after, sent, out, now, Step::Event(Event::Message(message))),
    ensures
        before.report() == Report::Nothing,
        before.stage() == Stage::Idle,
        sent.context() is Some,
        sent.sessions() == before.session(),
        out == sent,
        framing::next_item(before.input()) matches Some(framing::Item::Frame(frame)) && {
            &&& frame.len() > 0
            &&& cobs::cobs_decoded(frame) matches Ok(packet)
            &&& before.receiver() matches Some(receiver)
            &&& sealing::message_of(
                sealing::receiver_context(receiver),
                sealing::receiver_sequence(receiver),
                packet,
            ) == Some(message@)
            &&& after.receiver() matches Some(next)
            &&& sealing::receiver_context(next) == sealing::receiver_context(receiver)
            &&& sealing::receiver_sequence(next) == sealing::receiver_sequence(receiver) + 1
        },
{
}

/// Outside of a handshake, a frame that delivers no message and is no reset ends the
/// session in both directions. The client reads a reset, whatever a failed output left
/// unfinished, and the end of a session that was there is told next.
pub proof fn law_junk_ends_session<A: Attester>(
    before: Server<A>,
    after: Server<A>,
    sent: Outbound,
    out: Outbound,
    now: u64,
    step: Step,
    client: Input,
)
    requires
        receives(before, after, sent, out, now, step),
        before.report() == Report::Nothing,
        before.stage() == Stage::Idle,
        sent.resync() || client == framing::boundary(),
        match framing::next_item(before.input()) {
            None => false,
            Some(framing::Item::Oversized) => true,
            Some(framing::Item::Frame(frame)) => frame.len() > 0 && match cobs::cobs_decoded(
                frame,
            ) {
                Err(_) => true,
                Ok(packet) => match before.receiver() {
                    None => true,
                    Some(receiver) => !sent.bound_is(before.session()) || sealing::message_of(
                        sealing::receiver_context(receiver),
                        sealing::receiver_sequence(receiver),
                        packet,
                    ) is None,
                },
            },
        },
    ensures
        step matches Step::Write(bytes, None) && framing::arrival(
            framing::items(framing::extended(client, bytes@)).last(),
        ) == Arrival::Reset,
        out.context() is None,
        after.receiver() is None,
        after.stage() == Stage::Idle,
        after.report() == Report::Disconnected <==> before.receiver() is Some,
{
    let empty = Seq::<u8>::empty();
    if sent.resync() {
        framing::law_resync(client, empty);
    } else {
        framing::law_frame_reads_back(empty);
    }
}

/// A reset ends the session and requests a handshake, which has the whole of its budget
/// from here on. The end of a session that was there is told at once.
pub proof fn law_reset_requests_handshake<A: Attester>(
    before: Server<A>,
    after: Server<A>,
    sent: Outbound,
    out: Outbound,
    now: u64,
    step: Step,
)
    requires
        receives(before, after, sent, out, now, step),
        before.report() == Report::Nothing,
        before.stage() == Stage::Idle,
        now + before.timeout() <= u64::MAX,
        framing::next_item(before.input()) matches Some(framing::Item::Frame(frame)) && frame.len()
            == 0,
    ensures
        after.stage() matches Stage::Requested(deadline) && deadline == now + before.timeout(),
        after.receiver() is None,
        !out.bound_is(before.session()),
        before.receiver() is Some ==> step == Step::Event(Event::Disconnected),
        before.receiver() is None ==> step is Again,
        after.report() == Report::Nothing,
{
}

/// A handshake runs out of time at its deadline and not before, at whatever stage. The
/// reads in it are bound by the deadline too, and those outside of one by none.
pub proof fn law_deadline_is_exact<A: Attester>(
    before: Server<A>,
    after: Server<A>,
    sent: Outbound,
    out: Outbound,
    now: u64,
    step: Step,
)
    requires
        receives(before, after, sent, out, now, step),
        before.report() == Report::Nothing,
    ensures
        match before.stage() {
            Stage::AwaitHello(deadline) | Stage::AwaitAck(_, deadline) => {
                &&& step == Step::Failed(Error::RecvFailed(ErrorKind::TimedOut)) <==> now
                    >= deadline
                &&& step matches Step::Read(limit) ==> limit == Some(deadline)
                &&& step matches Step::Write(_, limit) ==> limit == Some(deadline)
            },
            Stage::Accepted(_, deadline) => {
                &&& step == Step::Failed(Error::RecvFailed(ErrorKind::TimedOut)) <==> now
                    >= deadline
                &&& now < deadline ==> (step matches Step::Event(event) && event is Connected)
            },
            _ => {
                &&& !(step is Failed)
                &&& step matches Step::Read(limit) ==> limit is None
                &&& step matches Step::Write(_, limit) ==> limit is None
            },
        },
{
    if let Stage::AwaitHello(deadline) = before.stage() {
        if now < deadline {
            if let Some(item) = framing::next_item(before.input()) {
                if let Arrival::Packet(packet) = framing::arrival(item) {
                    if let Some(hello) = handshake::hello_keys(packet) {
                        assert(welcomes(
                            before.attester(),
                            after.attester(),
                            hello,
                            before.signer(),
                            before.timestamp(),
                            after.stage(),
                            after.report(),
                            sent,
                            out,
                            deadline,
                            step,
                        ));
                    }
                }
            }
        }
    }
}

/// A handshake is accepted exactly by an ack that vouches for the client and the server's
/// fresh key, in time. The session has the contexts that the two sides announced.
pub proof fn law_acceptance_is_earned<A: Attester>(
    before: Server<A>,
    after: Server<A>,
    sent: Outbound,
    out: Outbound,
    now: u64,
    step: Step,
    pending: Pending,
    deadline: u64,
)
    requires
        receives(before, after, sent, out, now, step),
        before.report() == Report::Nothing,
        before.stage() == Stage::AwaitAck(pending, deadline),
        now < deadline,
    ensures
        after.stage() is Accepted <==> {
            &&& framing::next_item(before.input()) matches Some(framing::Item::Frame(frame))
            &&& frame.len() > 0
            &&& cobs::cobs_decoded(frame) matches Ok(packet)
            &&& handshake::context_for(
                packet,
                pending.key,
                pending.host_signer,
                keys::xdsa_public(before.signer()),
            ) is Some
        },
        after.stage() matches Stage::Accepted(session, until) ==> {
            &&& until == deadline
            &&& session.sender == pending.sender
            &&& sealing::receiver_sequence(session.receiver) == 0
            &&& framing::next_item(before.input()) matches Some(framing::Item::Frame(frame))
            &&& cobs::cobs_decoded(frame) matches Ok(packet)
            &&& handshake::context_for(
                packet,
                pending.key,
                pending.host_signer,
                keys::xdsa_public(before.signer()),
            ) == Some(sealing::receiver_context(session.receiver))
        },
        after.receiver() == before.receiver(),
        out.context() == sent.context() || out.context() is None,
{
}

/// A hello received in time is answered with a packet that is sealed to the key it
/// announces, whenever the attestation leaves room for it in a frame. The client reads
/// that packet, whatever a failed output left unfinished.
pub proof fn law_hello_is_answered<A: Attester>(
    before: Server<A>,
    after: Server<A>,
    sent: Outbound,
    out: Outbound,
    now: u64,
    step: Step,
    deadline: u64,
    packet: Seq<u8>,
    client: Input,
)
    requires
        receives(before, after, sent, out, now, step),
        before.report() == Report::Nothing,
        before.stage() == Stage::AwaitHello(deadline),
        now < deadline,
        framing::next_item(before.input()) matches Some(framing::Item::Frame(frame)) && frame.len()
            > 0 && cobs::cobs_decoded(frame) == Ok::<Seq<u8>, darkbio_cobs::DecodeError>(packet),
        sent.resync() || client == framing::boundary(),
        forall|attest: Seq<u8>|
            before.attester().presents(attest, &after.attester()) ==> attest.len() <= 2_000_000,
    ensures
        match handshake::hello_keys(packet) {
            Some((signer, crypto)) => {
                &&& step matches Step::Write(bytes, limit)
                &&& limit == Some(deadline)
                &&& framing::arrival(
                    framing::items(framing::extended(client, bytes@)).last(),
                ) matches Arrival::Packet(answer)
                &&& envelope::cose_recipient(answer) == Some(keys::xhpke_fingerprint(crypto))
                &&& after.stage() matches Stage::AwaitAck(pending, until)
                &&& until == deadline
                &&& pending.host_signer == signer
                &&& exists|attest: Seq<u8>|
                    before.attester().presents(attest, &after.attester())
                        && #[trigger] handshake::answered_with(
                        answer,
                        attest,
                        (signer, crypto),
                        pending,
                        before.signer(),
                        before.timestamp(),
                    )
            },
            None => {
                &&& step matches Step::Write(bytes, limit)
                &&& limit == Some(deadline)
                &&& framing::arrival(
                    framing::items(framing::extended(client, bytes@)).last(),
                ) == Arrival::Reset
                &&& after.stage() == Stage::Idle
                &&& out.context() is None
            },
        },
{
    let empty = Seq::<u8>::empty();
    if sent.resync() {
        framing::law_resync(client, empty);
    } else {
        framing::law_frame_reads_back(empty);
    }
    if let Some(hello) = handshake::hello_keys(packet) {
        let attest = choose|attest: Seq<u8>|
            {
                &&& before.attester().presents(attest, &after.attester())
                &&& #[trigger] responds(
                    hello,
                    attest,
                    before.signer(),
                    before.timestamp(),
                    after.stage(),
                    after.report(),
                    sent,
                    out,
                    deadline,
                    step,
                )
            };
        handshake::law_attestation_fits(attest, before.signer(), hello.1, before.timestamp());
        let pending = after.stage()->AwaitAck_0;
        let bytes = step->Write_0;
        let answer = choose|packet: Seq<u8>|
            {
                &&& #[trigger] pending.announced(
                    packet,
                    attest,
                    before.signer(),
                    hello.1,
                    before.timestamp(),
                )
                &&& cobs::encoded_bound(packet.len() as int) <= super::MAX_FRAME_SIZE
                &&& cobs::carries(cobs::cobs_encoded(packet), packet)
                &&& bytes@ == framing::framed(sent.resync(), cobs::cobs_encoded(packet))
            };
        framing::law_packet_reads_back(
            client,
            sent.resync(),
            cobs::cobs_encoded(answer),
            answer,
        );
        assert(handshake::answered_with(
            answer,
            attest,
            hello,
            pending,
            before.signer(),
            before.timestamp(),
        ));
    }
}

/// A handshake that failed is told as such only if it ran out of time, and an answer that
/// could not be written fails the call with the reason.
pub proof fn law_reports_are_told<A: Attester>(
    before: Server<A>,
    after: Server<A>,
    sent: Outbound,
    out: Outbound,
    now: u64,
    step: Step,
)
    requires
        receives(before, after, sent, out, now, step),
        before.report() != Report::Nothing,
    ensures
        match before.report() {
            Report::Disconnected => step == Step::Event(Event::Disconnected),
            Report::SendFailed(kind) => step == Step::Failed(Error::SendFailed(kind)),
            Report::Refused(deadline) => if now >= deadline {
                step == Step::Failed(Error::RecvFailed(ErrorKind::TimedOut))
            } else {
                step is Again
            },
            Report::Nothing => true,
        },
        after.report() == Report::Nothing,
        after.input() == before.input(),
        after.receiver() == before.receiver(),
        after.stage() == before.stage(),
        out == sent,
{
}

/// A disconnect ends the session in both directions, and the client reads a reset, whatever
/// a failed output left unfinished. No sender can send from then on. Neither the input nor a
/// handshake in progress is touched.
pub proof fn law_disconnect_ends_session<A: Attester>(
    before: Server<A>,
    after: Server<A>,
    sent: Outbound,
    out: Outbound,
    signal: Seq<u8>,
    client: Input,
    sender: Sender,
)
    requires
        disconnects(before, after, sent, out, signal),
        sent.resync() || client == framing::boundary(),
    ensures
        after.receiver() is None,
        !out.bound_is(sender.session()),
        framing::arrival(framing::items(framing::extended(client, signal)).last())
            == Arrival::Reset,
        after.input() == before.input(),
        after.stage() == before.stage(),
        after.report() == before.report(),
{
    let empty = Seq::<u8>::empty();
    if sent.resync() {
        framing::law_resync(client, empty);
    } else {
        framing::law_frame_reads_back(empty);
    }
}

/// Only an ArkHello that did not go out ends a handshake, and the failure is told as it was.
pub proof fn law_lost_answer_is_told<A: Attester>(
    before: Server<A>,
    after: Server<A>,
    output: Output,
    outcome: Result<(), ErrorKind>,
)
    requires
        settles(before, after, output, outcome),
    ensures
        outcome is Ok || output != Output::Packet ==> after.stage() == before.stage()
            && after.report() == before.report(),
        output == Output::Packet ==> (outcome matches Err(kind) ==> after.stage() == Stage::Idle
            && after.report() == Report::SendFailed(kind)),
        after.receiver() == before.receiver(),
        after.input() == before.input(),
{
}

/// During a handshake, a frame that does not decode, one past the size limit and a packet
/// that is no ack where one is awaited end it: the client reads a reset within the deadline.
/// Another reset goes back to awaiting a hello, under the same deadline.
pub proof fn law_junk_ends_handshake<A: Attester>(
    before: Server<A>,
    after: Server<A>,
    sent: Outbound,
    out: Outbound,
    now: u64,
    step: Step,
    deadline: u64,
    client: Input,
)
    requires
        receives(before, after, sent, out, now, step),
        before.report() == Report::Nothing,
        match before.stage() {
            Stage::AwaitHello(limit) | Stage::AwaitAck(_, limit) => limit == deadline,
            _ => false,
        },
        now < deadline,
        framing::next_item(before.input()) is Some,
        sent.resync() || client == framing::boundary(),
    ensures
        ({
            let ends = match (framing::next_item(before.input()), before.stage()) {
                (Some(framing::Item::Oversized), _) => true,
                (Some(framing::Item::Frame(frame)), stage) => frame.len() > 0
                    && match cobs::cobs_decoded(frame) {
                    Err(_) => true,
                    Ok(packet) => stage matches Stage::AwaitAck(pending, _)
                        && handshake::context_for(
                        packet,
                        pending.key,
                        pending.host_signer,
                        keys::xdsa_public(before.signer()),
                    ) is None,
                },
                (None, _) => false,
            };
            ends ==> {
                &&& step matches Step::Write(bytes, limit)
                &&& limit == Some(deadline)
                &&& framing::arrival(
                    framing::items(framing::extended(client, bytes@)).last(),
                ) == Arrival::Reset
                &&& after.stage() == Stage::Idle
                &&& after.report() == Report::Refused(deadline)
                &&& out.context() is None
            }
        }),
        framing::next_item(before.input()) matches Some(framing::Item::Frame(frame)) && frame.len()
            == 0 ==> {
            &&& step is Again
            &&& after.stage() == Stage::AwaitHello(deadline)
            &&& after.report() == Report::Nothing
            &&& out == sent
        },
{
    let empty = Seq::<u8>::empty();
    if sent.resync() {
        framing::law_resync(client, empty);
    } else {
        framing::law_frame_reads_back(empty);
    }
}

/// Receiving takes one frame at a time, leaving none out and taking none twice, and takes
/// none to tell something, to start or end a handshake. It never changes who the server is,
/// and asks for an attestation only while a hello is awaited.
pub proof fn law_frames_are_taken_in_order<A: Attester>(
    before: Server<A>,
    after: Server<A>,
    sent: Outbound,
    out: Outbound,
    now: u64,
    step: Step,
)
    requires
        receives(before, after, sent, out, now, step),
    ensures
        framing::items(after.input()) == framing::items(before.input()) || {
            &&& framing::items(before.input()).len() > 0
            &&& framing::items(after.input()) == framing::items(before.input()).skip(1)
        },
        step is Read ==> framing::items(after.input()) == framing::items(before.input()),
        step is Read <==> {
            &&& before.report() == Report::Nothing
            &&& framing::next_item(before.input()) is None
            &&& match before.stage() {
                Stage::Idle => true,
                Stage::AwaitHello(deadline) | Stage::AwaitAck(_, deadline) => now < deadline,
                _ => false,
            }
        },
        before.report() != Report::Nothing ==> after.input() == before.input(),
        after.signer() == before.signer(),
        after.timeout() == before.timeout(),
        !(before.stage() is AwaitHello) ==> after.attester() == before.attester(),
{
    let input = before.input();
    framing::lemma_item_consumes(input);
    if let Some(item) = framing::next_item(input) {
        let rest = framing::items(framing::after_item(input));
        assert((seq![item] + rest).skip(1) =~= rest);
    } else {
        framing::lemma_extends(input, Seq::empty(), Seq::empty());
        framing::law_chunking(input, Seq::empty());
    }
    if let Stage::AwaitHello(deadline) = before.stage() {
        if now < deadline {
            if let Some(item) = framing::next_item(input) {
                if let Arrival::Packet(packet) = framing::arrival(item) {
                    if let Some(hello) = handshake::hello_keys(packet) {
                        assert(before.report() == Report::Nothing ==> welcomes(
                            before.attester(),
                            after.attester(),
                            hello,
                            before.signer(),
                            before.timestamp(),
                            after.stage(),
                            after.report(),
                            sent,
                            out,
                            deadline,
                            step,
                        ));
                    }
                }
            }
        }
    }
}

/// The budget set is the budget of the handshakes that follow, and setting it touches
/// nothing else, a handshake in progress least of all.
pub proof fn law_budget_is_set<A: Attester>(server: Server<A>, timeout: u64, set: Server<A>)
    requires
        call_ensures(Server::<A>::set_handshake_timeout, (server, timeout), set),
    ensures
        set.timeout() == timeout,
        set.input() == server.input(),
        set.receiver() == server.receiver(),
        set.session() == server.session(),
        set.stage() == server.stage(),
        set.report() == server.report(),
        set.signer() == server.signer(),
        set.attester() == server.attester(),
{
}

/// A server that sets no budget has ten seconds for a handshake, from its reset on, and signs
/// with the key and presents what it was given.
pub proof fn law_default_handshake_budget<A: Attester>(
    signer: SigningKey,
    attester: A,
    server: Server<A>,
)
    requires
        call_ensures(Server::<A>::new, (signer, attester), server),
    ensures
        server.timeout() == 10_000_000_000,
        server.signer() == signer,
        server.attester() == attester,
        server.timestamp() is None,
        server.receiver() is None,
        server.stage() is Idle,
{
}

} // verus!
