//! Server side of the wire, serving messages of a connected client. It waits for
//! session resets (empty frames), answers the handshake and afterward decrypts
//! inbound and encrypts outbound messages.
//!
//! Whenever the server drops a session, fails a handshake or receives data while
//! it has no session, it answers with an empty frame of its own. A client still
//! holding a session thus learns it is gone instead of having to time out.

use darkbio_crypto::xdsa::{PublicKey as VerifyingKey, SecretKey as SigningKey};
use darkbio_crypto::xhpke::{PublicKey as EncryptionKey, Receiver as OpeningContext};
use vstd::prelude::*;

pub use crate::transport::attestation::{Attestation, Attester};

use crate::bytes::replace;
use crate::transport;
use crate::transport::attestation;
use crate::transport::cobs;
use crate::transport::envelope;
use crate::transport::framing;
use crate::transport::framing::{Arrival, FrameReader, FrameWriter, Input, Item};
use crate::transport::handshake;
use crate::transport::handshake::Pending;
use crate::transport::keys;
use crate::transport::sealing;
use crate::transport::session;
use crate::transport::session::Session;
use crate::transport::{Error, MAX_MESSAGE_SIZE};

verus! {

/// Where the server stands with its client.
pub enum Phase {
    /// No session and no handshake in progress.
    Idle,
    /// A reset arrived, a HostHello is awaited.
    AwaitHello,
    /// The ArkHello went out, a HostAck is awaited.
    AwaitAck(Pending),
    /// A session is live in both directions.
    Established(Session),
}

/// Output handed out and not reported as written or failed yet.
#[derive(Clone, Copy, PartialEq, Eq, Structural)]
pub enum Output {
    /// Nothing is outstanding.
    Settled,
    /// The ArkHello of the handshake in progress.
    Hello,
    /// The empty frame telling the client that it has no session.
    Signal,
    /// A message of the session.
    Message,
}

/// What the server needs next.
pub enum Step {
    /// More input, the frames received so far being used up.
    Read,
    /// Another call, the frame at hand having been absorbed.
    Again,
    /// The bytes to be written and flushed, and the outcome reported.
    Write(Vec<u8>),
    /// Delivery of a decrypted message from the client.
    Message(Vec<u8>),
}

/// Refusal to send a message, along with a signal to be written to the client if
/// the refusal ended the session.
#[derive(Debug)]
pub struct Refusal {
    pub error: Error,
    pub signal: Option<Vec<u8>>,
}

/// The server gives up whatever it had and tells the client.
pub open spec fn drops(resync: bool, step: Step, after: Phase) -> bool {
    &&& after == Phase::Idle
    &&& step matches Step::Write(bytes)
    &&& bytes@ == framing::framed(resync, Seq::empty())
}

/// The server answers the keys of a valid hello: it awaits the ack to an ArkHello
/// that presents the attestation, is sealed to the keys and put on the wire as one
/// frame.
pub open spec fn answers(
    hello: (VerifyingKey, EncryptionKey),
    attest: Seq<u8>,
    signer: SigningKey,
    timestamp: Option<i64>,
    resync: bool,
    step: Step,
    after: Phase,
) -> bool {
    &&& after matches Phase::AwaitAck(pending)
    &&& step matches Step::Write(bytes)
    &&& pending.host_signer == hello.0
    &&& exists|packet: Seq<u8>|
        {
            &&& #[trigger] pending.announced(packet, attest, signer, hello.1, timestamp)
            &&& cobs::encoded_bound(packet.len() as int) <= transport::MAX_FRAME_SIZE
            &&& cobs::carries(cobs::cobs_encoded(packet), packet)
            &&& bytes@ == framing::framed(resync, cobs::cobs_encoded(packet))
        }
}

/// The server responds to the keys of a valid hello with an answer that presents
/// the attestation. One that fits no frame drops the handshake.
pub open spec fn responds(
    hello: (VerifyingKey, EncryptionKey),
    attest: Seq<u8>,
    signer: SigningKey,
    timestamp: Option<i64>,
    resync: bool,
    step: Step,
    after: Phase,
) -> bool {
    &&& attestation::device_token(attest)
    &&& {
        ||| answers(hello, attest, signer, timestamp, resync, step, after)
        ||| drops(resync, step, after) && handshake::unwieldy(attest, signer, hello.1, timestamp)
    }
}

/// A valid hello is refused if the attestation presented is as long as a frame.
pub proof fn law_long_attestation_refused(
    hello: (VerifyingKey, EncryptionKey),
    attest: Seq<u8>,
    signer: SigningKey,
    timestamp: Option<i64>,
    resync: bool,
    step: Step,
    after: Phase,
)
    requires
        responds(hello, attest, signer, timestamp, resync, step, after),
        attest.len() >= transport::MAX_FRAME_SIZE,
    ensures
        drops(resync, step, after),
{
}

/// The server responds to the keys of a valid hello with what the attester
/// presents.
pub open spec fn welcomes<A: Attester>(
    attester: A,
    hello: (VerifyingKey, EncryptionKey),
    signer: SigningKey,
    timestamp: Option<i64>,
    resync: bool,
    step: Step,
    after: Phase,
    next: A,
) -> bool {
    exists|attest: Seq<u8>|
        {
            &&& attester.presents(attest, &next)
            &&& #[trigger] responds(hello, attest, signer, timestamp, resync, step, after)
        }
}

/// How the server reacts to what arrives, by where it stands. A reset starts a
/// handshake in every phase. A packet that the phase calls for moves it on, unless
/// the answer to it fits no frame. Everything else drops what the server had. The
/// attester is asked for an attestation to answer a valid hello with.
pub open spec fn reacts<A: Attester>(
    before: Phase,
    arrival: Arrival,
    attester: A,
    signer: SigningKey,
    timestamp: Option<i64>,
    resync: bool,
    step: Step,
    after: Phase,
    next: A,
) -> bool {
    match (before, arrival) {
        (Phase::AwaitHello, Arrival::Packet(packet)) => match handshake::hello_keys(packet) {
            Some(hello) => welcomes(
                attester,
                hello,
                signer,
                timestamp,
                resync,
                step,
                after,
                next,
            ),
            None => next == attester && drops(resync, step, after),
        },
        _ => next == attester && proceeds(before, arrival, signer, resync, step, after),
    }
}

/// How the server reacts to everything but a packet in place of a hello.
pub open spec fn proceeds(
    before: Phase,
    arrival: Arrival,
    signer: SigningKey,
    resync: bool,
    step: Step,
    after: Phase,
) -> bool {
    match (before, arrival) {
        (_, Arrival::Reset) => step is Again && after == Phase::AwaitHello,
        (Phase::AwaitAck(pending), Arrival::Packet(packet)) => match handshake::ack_context(
            packet,
            pending,
            keys::xdsa_public(signer),
        ) {
            Some(context) => {
                &&& step is Again
                &&& after matches Phase::Established(session)
                &&& session.sender == pending.sender
                &&& sealing::receiver_context(session.receiver) == context
                &&& sealing::receiver_sequence(session.receiver) == 0
            },
            None => drops(resync, step, after),
        },
        (Phase::Established(session), Arrival::Packet(packet)) => {
            &&& session.reads_back(packet)
            &&& match session.message_in(packet) {
                Some(message) => {
                    &&& step matches Step::Message(bytes)
                    &&& bytes@ == message
                    &&& after matches Phase::Established(next)
                    &&& session.received(next)
                },
                None => drops(resync, step, after),
            }
        },
        _ => drops(resync, step, after),
    }
}

/// A frame no longer than a signing key holds no hello.
pub open spec fn brief(item: Option<Item>) -> bool {
    match item {
        Some(Item::Frame(frame)) => frame.len() <= keys::VERIFYING_KEY_SIZE ==> (framing::arrival(
            Item::Frame(frame),
        ) matches Arrival::Packet(packet) ==> handshake::hello_keys(packet) is None),
        _ => true,
    }
}

/// Everything stays but the session, the handshake and the output.
pub open spec fn same_but_session<A: Attester>(before: Server<A>, after: Server<A>) -> bool {
    &&& after.input() == before.input()
    &&& after.signer() == before.signer()
    &&& after.timestamp() == before.timestamp()
    &&& after.attester() == before.attester()
}

/// What the outcome of an output means. A failed ArkHello or message takes the handshake or
/// session down with it, and the client is told. A failed signal is not repeated.
pub open spec fn settles<A: Attester>(
    before: Server<A>,
    after: Server<A>,
    written: bool,
    signal: Option<Vec<u8>>,
) -> bool {
    match (before.output(), written) {
        (Output::Settled, _) => {
            &&& signal is None
            &&& after.phase() == before.phase()
            &&& after.output() == Output::Settled
            &&& after.resync() == before.resync()
        },
        (Output::Hello, false) | (Output::Message, false) => {
            &&& signal matches Some(bytes)
            &&& bytes@ == framing::framed(true, Seq::empty())
            &&& after.phase() == Phase::Idle
            &&& after.output() == Output::Signal
            &&& after.resync()
        },
        _ => {
            &&& signal is None
            &&& after.phase() == before.phase()
            &&& after.output() == Output::Settled
            &&& after.resync() == !written
        },
    }
}

/// What a send does to the server and hands out. An oversized message is refused without
/// ending the session. A sequence that has run out ends it, and the client is told.
pub open spec fn sends<A: Attester>(
    before: Server<A>,
    after: Server<A>,
    message: Seq<u8>,
    sent: Result<Vec<u8>, Refusal>,
) -> bool {
    match before.phase() {
        Phase::Established(session) => match sent {
            Ok(bytes) => {
                &&& after.phase() matches Phase::Established(next)
                &&& session.sends(next, message, before.resync(), bytes@)
                &&& after.output() == Output::Message
                &&& after.resync()
            },
            Err(refusal) => if message.len() > MAX_MESSAGE_SIZE {
                &&& refusal.error == Error::PacketTooLarge(message.len() as usize)
                &&& refusal.signal is None
                &&& after.phase() == before.phase()
                &&& after.output() == Output::Settled
                &&& after.resync() == before.resync()
            } else {
                &&& sealing::sender_sequence(session.sender) > u64::MAX
                &&& refusal.error is EncryptionFailed
                &&& refusal.signal matches Some(signal)
                &&& signal@ == framing::framed(before.resync(), Seq::empty())
                &&& after.phase() == Phase::Idle
                &&& after.output() == Output::Signal
                &&& after.resync()
            },
        },
        _ => {
            &&& sent matches Err(refusal)
            &&& refusal.error matches Error::EncryptionFailed(reason)
            &&& reason@ == "no active session"@
            &&& refusal.signal is None
            &&& after.phase() == before.phase()
            &&& after.output() == Output::Settled
            &&& after.resync() == before.resync()
        },
    }
}

/// Server side of the wire. The device attestation is not interpreted by the
/// wire, it is provided by an `Attester` and forwarded to the client verbatim.
pub struct Server<A: Attester> {
    reader: FrameReader,  // Frames received
    writer: FrameWriter,  // Frames sent
    signer: SigningKey,  // Server's identity key, signing the ArkHello
    attester: A,  // Source of the device attestation for handshakes
    phase: Phase,  // Session or handshake in progress
    output: Output,  // Output whose outcome is awaited
    timestamp: Option<i64>,  // Signing time of the ArkHello, the clock's otherwise
}

impl<A: Attester> Server<A> {
    /// Input received and not used up yet.
    pub closed spec fn input(self) -> Input {
        self.reader@
    }

    /// Whether the next output starts with a delimiter, the last one having failed.
    pub closed spec fn resync(self) -> bool {
        self.writer.resync
    }

    /// Identity key of the server.
    pub closed spec fn signer(self) -> SigningKey {
        self.signer
    }

    /// Source of the device attestation.
    pub closed spec fn attester(self) -> A {
        self.attester
    }

    /// Session or handshake in progress.
    pub closed spec fn phase(self) -> Phase {
        self.phase
    }

    /// Signing time of the ArkHellos, the clock's if there is none.
    pub closed spec fn timestamp(self) -> Option<i64> {
        self.timestamp
    }

    /// Output whose outcome is awaited.
    pub closed spec fn output(self) -> Output {
        self.output
    }

    /// Creates a server without a session. The signer is the server's identity
    /// key, which signs the handshake. The client verifies that signature against
    /// the key it extracts from the attestation, so the two must match.
    pub fn new(signer: SigningKey, attester: A) -> (server: Server<A>)
        ensures
            server.input() == (Input { pending: Seq::empty(), discarding: false }),
            !server.resync(),
            server.signer() == signer,
            server.attester() == attester,
            server.phase() == Phase::Idle,
            server.output() == Output::Settled,
            server.timestamp() is None,
    {
        Server {
            reader: FrameReader::new(),
            writer: FrameWriter::new(),
            signer,
            attester,
            phase: Phase::Idle,
            output: Output::Settled,
            timestamp: None,
        }
    }

    /// Creates a server that signs its ArkHellos at the given time instead of the
    /// clock's.
    pub fn new_at(signer: SigningKey, attester: A, timestamp: i64) -> (server: Server<A>)
        ensures
            server.input() == (Input { pending: Seq::empty(), discarding: false }),
            !server.resync(),
            server.signer() == signer,
            server.attester() == attester,
            server.phase() == Phase::Idle,
            server.output() == Output::Settled,
            server.timestamp() == Some(timestamp),
    {
        let mut server = Server::new(signer, attester);
        server.timestamp = Some(timestamp);
        server
    }

    /// Takes in bytes received from the client.
    pub fn feed(&mut self, bytes: &[u8])
        ensures
            final(self).input() == framing::extended(old(self).input(), bytes@),
            final(self).resync() == old(self).resync(),
            final(self).signer() == old(self).signer(),
            final(self).timestamp() == old(self).timestamp(),
            final(self).attester() == old(self).attester(),
            final(self).phase() == old(self).phase(),
            final(self).output() == old(self).output(),
    {
        self.reader.feed(bytes);
    }

    /// Abandons a handshake in progress, as a failed read does. A session is left
    /// alone.
    pub fn interrupt(&mut self)
        ensures
            final(self).phase() == (match old(self).phase() {
                Phase::Established(session) => Phase::Established(session),
                _ => Phase::Idle,
            }),
            final(self).input() == old(self).input(),
            final(self).resync() == old(self).resync(),
            final(self).signer() == old(self).signer(),
            final(self).timestamp() == old(self).timestamp(),
            final(self).attester() == old(self).attester(),
            final(self).output() == old(self).output(),
    {
        let phase = replace(&mut self.phase, Phase::Idle);
        self.phase = match phase {
            Phase::Established(session) => Phase::Established(session),
            _ => Phase::Idle,
        };
    }

    /// Serves the next frame received. Empty frames are session resets and start
    /// the handshake. Junk outside a session, undecryptable packets and failed
    /// handshakes are answered with an empty frame. Oversized frames are skipped.
    pub fn next_message(&mut self) -> (step: Step)
        requires
            old(self).output() == Output::Settled,
        ensures
            final(self).input() == framing::after_item(
                framing::past_oversized(old(self).input()),
            ),
            final(self).signer() == old(self).signer(),
            final(self).timestamp() == old(self).timestamp(),
            match framing::next_item(framing::past_oversized(old(self).input())) {
                None => {
                    &&& step is Read
                    &&& final(self).phase() == old(self).phase()
                    &&& final(self).attester() == old(self).attester()
                },
                Some(item) => reacts(
                    old(self).phase(),
                    framing::arrival(item),
                    old(self).attester(),
                    old(self).signer(),
                    old(self).timestamp(),
                    old(self).resync(),
                    step,
                    final(self).phase(),
                    final(self).attester(),
                ),
            },
            old(self).phase() is AwaitHello ==> framing::cut_off(
                framing::next_item(framing::past_oversized(old(self).input())),
            ) && brief(framing::next_item(framing::past_oversized(old(self).input()))),
            final(self).output() == (match step {
                Step::Write(_) => if final(self).phase() is AwaitAck {
                    Output::Hello
                } else {
                    Output::Signal
                },
                _ => Output::Settled,
            }),
            final(self).resync() == (step is Write || old(self).resync()),
    {
        proof {
            framing::reveal_item(framing::past_oversized(self.reader@));
        }
        let frame = match self.reader.next_frame_blob() {
            None => return Step::Read,
            Some(frame) => frame,
        };
        let phase = replace(&mut self.phase, Phase::Idle);
        let packet = match framing::decode_frame(&frame) {
            Err(_) => return self.drop_session(),
            Ok(None) => {
                self.phase = Phase::AwaitHello;
                return Step::Again;
            },
            Ok(Some(packet)) => packet,
        };
        match phase {
            Phase::Idle => self.drop_session(),
            Phase::AwaitHello => self.answer(packet.as_slice()),
            Phase::AwaitAck(pending) => {
                match handshake::accept_ack(pending, packet.as_slice(), &self.signer.public_key()) {
                    Ok(session) => {
                        self.phase = Phase::Established(session);
                        Step::Again
                    },
                    Err(_) => self.drop_session(),
                }
            },
            Phase::Established(mut session) => match session.open(packet.as_slice()) {
                Ok(message) => {
                    self.phase = Phase::Established(session);
                    Step::Message(message)
                },
                Err(_) => self.drop_session(),
            },
        }
    }

    /// Reports whether the output handed out last was written and flushed whole.
    /// A failed ArkHello or message takes the handshake or session down with it,
    /// as the client cannot follow past the gap, and a signal telling the client
    /// is handed out. A failed signal is not repeated.
    pub fn sent(&mut self, written: bool) -> (signal: Option<Vec<u8>>)
        ensures
            same_but_session(*old(self), *final(self)),
            settles(*old(self), *final(self), written, signal),
    {
        let output = self.output;
        if output == Output::Settled {
            return None;
        }
        self.writer.complete(written);
        self.output = Output::Settled;
        if written || output == Output::Signal {
            return None;
        }
        match self.drop_session() {
            Step::Write(bytes) => Some(bytes),
            _ => None,
        }
    }

    /// Seals a message with the session and hands out its frame. Fails without a
    /// session. An oversized message is refused without ending the session, a
    /// failure of the sealing ends it and signals the client.
    pub fn send_message(&mut self, message: &[u8]) -> (sent: Result<Vec<u8>, Refusal>)
        requires
            old(self).output() == Output::Settled,
        ensures
            same_but_session(*old(self), *final(self)),
            sends(*old(self), *final(self), message@, sent),
    {
        let phase = replace(&mut self.phase, Phase::Idle);
        let mut session = match phase {
            Phase::Established(session) => session,
            phase => {
                self.phase = phase;
                let error = Error::EncryptionFailed(String::from_str("no active session"));
                return Err(Refusal { error, signal: None });
            },
        };
        let ghost before = session;
        match session.seal(message) {
            Ok(packet) => {
                proof {
                    transport::lemma_max_message_size(message@.len() as int);
                }
                self.phase = Phase::Established(session);
                match self.writer.send_packet(packet.as_slice()) {
                    Ok(bytes) => {
                        self.output = Output::Message;
                        Ok(bytes)
                    },
                    Err(error) => Err(Refusal { error, signal: None }),
                }
            },
            Err(Error::PacketTooLarge(size)) => {
                self.phase = Phase::Established(session);
                Err(Refusal { error: Error::PacketTooLarge(size), signal: None })
            },
            Err(error) => {
                let signal = match self.drop_session() {
                    Step::Write(bytes) => Some(bytes),
                    _ => None,
                };
                Err(Refusal { error, signal })
            },
        }
    }

    /// Answers a packet received in place of a HostHello.
    fn answer(&mut self, packet: &[u8]) -> (step: Step)
        requires
            old(self).phase == Phase::Idle,
        ensures
            final(self).reader == old(self).reader,
            final(self).signer == old(self).signer,
            final(self).timestamp == old(self).timestamp,
            reacts(
                Phase::AwaitHello,
                Arrival::Packet(packet@),
                old(self).attester,
                old(self).signer,
                old(self).timestamp,
                old(self).writer.resync,
                step,
                final(self).phase,
                final(self).attester,
            ),
            packet@.len() < keys::VERIFYING_KEY_SIZE ==> handshake::hello_keys(packet@) is None,
            step is Write,
            final(self).output == (if final(self).phase is AwaitAck {
                Output::Hello
            } else {
                Output::Signal
            }),
            final(self).writer.resync,
    {
        let hello = match handshake::read_hello(packet) {
            Ok(hello) => hello,
            Err(_) => return self.drop_session(),
        };
        let attestation = self.attester.attest();
        let ghost attest = attestation@;
        let step = self.respond(hello, attestation);
        assert(responds(
            hello,
            attest,
            self.signer,
            self.timestamp,
            old(self).writer.resync,
            step,
            self.phase,
        ));
        step
    }

    /// Responds to the keys of a HostHello with an attestation.
    fn respond(&mut self, hello: (VerifyingKey, EncryptionKey), attestation: Attestation) -> (step:
        Step)
        requires
            old(self).phase == Phase::Idle,
        ensures
            final(self).reader == old(self).reader,
            final(self).signer == old(self).signer,
            final(self).timestamp == old(self).timestamp,
            final(self).attester == old(self).attester,
            responds(
                hello,
                attestation@,
                old(self).signer,
                old(self).timestamp,
                old(self).writer.resync,
                step,
                final(self).phase,
            ),
            step is Write,
            final(self).output == (if final(self).phase is AwaitAck {
                Output::Hello
            } else {
                Output::Signal
            }),
            final(self).writer.resync,
    {
        match handshake::answer_keys(hello, &self.signer, attestation, self.timestamp) {
            Err(_) => self.drop_session(),
            Ok((pending, answer)) => match self.writer.send_packet(answer.as_slice()) {
                Err(_) => self.drop_session(),
                Ok(bytes) => {
                    self.phase = Phase::AwaitAck(pending);
                    self.output = Output::Hello;
                    Step::Write(bytes)
                },
            },
        }
    }

    /// Drops whatever is in progress and tells the client so.
    fn drop_session(&mut self) -> (step: Step)
        ensures
            final(self).reader == old(self).reader,
            final(self).signer == old(self).signer,
            final(self).timestamp == old(self).timestamp,
            final(self).attester == old(self).attester,
            final(self).output == Output::Signal,
            drops(old(self).writer.resync, step, final(self).phase),
            final(self).writer.resync,
    {
        self.phase = Phase::Idle;
        self.output = Output::Signal;
        Step::Write(self.writer.send_dropped())
    }
}

/// A message is delivered only out of a session, and is the one that the packet holds at
/// the server's position in it. The position then advances by one.
pub proof fn law_message_is_authentic<A: Attester>(
    before: Phase,
    arrival: Arrival,
    attesters: (A, A),
    signer: SigningKey,
    timestamp: Option<i64>,
    resync: bool,
    message: Vec<u8>,
    after: Phase,
)
    requires
        reacts(
            before,
            arrival,
            attesters.0,
            signer,
            timestamp,
            resync,
            Step::Message(message),
            after,
            attesters.1,
        ),
    ensures
        before is Established,
        arrival is Packet,
        ({
            let session = before->Established_0;
            &&& sealing::message_of(
                sealing::receiver_context(session.receiver),
                sealing::receiver_sequence(session.receiver),
                arrival->Packet_0,
            ) == Some(message@)
            &&& after matches Phase::Established(next)
            &&& next.sender == session.sender
            &&& sealing::receiver_context(next.receiver) == sealing::receiver_context(
                session.receiver,
            )
            &&& sealing::receiver_sequence(next.receiver) == sealing::receiver_sequence(
                session.receiver,
            ) + 1
        }),
{
    if before is AwaitHello && arrival is Packet {
        let packet = arrival->Packet_0;
        if let Some(hello) = handshake::hello_keys(packet) {
            assert(welcomes(
                attesters.0,
                hello,
                signer,
                timestamp,
                resync,
                Step::Message(message),
                after,
                attesters.1,
            ));
        }
    }
}

/// A reset starts a handshake, whatever the server had before.
pub proof fn law_reset_starts_handshake<A: Attester>(
    before: Phase,
    attesters: (A, A),
    signer: SigningKey,
    timestamp: Option<i64>,
    resync: bool,
    step: Step,
    after: Phase,
)
    requires
        reacts(
            before,
            Arrival::Reset,
            attesters.0,
            signer,
            timestamp,
            resync,
            step,
            after,
            attesters.1,
        ),
    ensures
        step is Again,
        after is AwaitHello,
        attesters.1 == attesters.0,
{
}

/// A session is established exactly by an ack that vouches for the client and the server's
/// fresh key, with the contexts that the two sides announced. Any other packet in its place
/// is answered with a signal that the client reads as a reset.
pub proof fn law_session_is_earned<A: Attester>(
    pending: Pending,
    packet: Seq<u8>,
    attesters: (A, A),
    signer: SigningKey,
    timestamp: Option<i64>,
    resync: bool,
    step: Step,
    after: Phase,
    client: Input,
)
    requires
        reacts(
            Phase::AwaitAck(pending),
            Arrival::Packet(packet),
            attesters.0,
            signer,
            timestamp,
            resync,
            step,
            after,
            attesters.1,
        ),
        resync || client == framing::boundary(),
    ensures
        match handshake::context_for(
            packet,
            pending.key,
            pending.host_signer,
            keys::xdsa_public(signer),
        ) {
            Some(context) => {
                &&& step is Again
                &&& after matches Phase::Established(session)
                &&& session.sender == pending.sender
                &&& sealing::receiver_context(session.receiver) == context
                &&& sealing::receiver_sequence(session.receiver) == 0
            },
            None => {
                &&& step matches Step::Write(bytes)
                &&& framing::arrival(
                    framing::items(framing::extended(client, bytes@)).last(),
                ) == Arrival::Reset
                &&& after is Idle
            },
        },
{
    let empty = Seq::<u8>::empty();
    if resync {
        framing::law_resync(client, empty);
    } else {
        framing::law_frame_reads_back(empty);
    }
}

/// What the server cannot use drops whatever it had, and the client reads a reset: a frame
/// that does not decode, a packet outside of a handshake and a session, and one that does
/// not open in the session.
pub proof fn law_junk_is_dropped<A: Attester>(
    before: Phase,
    arrival: Arrival,
    attesters: (A, A),
    signer: SigningKey,
    timestamp: Option<i64>,
    resync: bool,
    step: Step,
    after: Phase,
    client: Input,
)
    requires
        reacts(
            before,
            arrival,
            attesters.0,
            signer,
            timestamp,
            resync,
            step,
            after,
            attesters.1,
        ),
        resync || client == framing::boundary(),
        match (before, arrival) {
            (_, Arrival::Reset) => false,
            (Phase::Idle, _) => true,
            (Phase::Established(session), Arrival::Packet(packet)) => sealing::message_of(
                sealing::receiver_context(session.receiver),
                sealing::receiver_sequence(session.receiver),
                packet,
            ) is None,
            (_, Arrival::Packet(_)) => false,
            _ => true,
        },
    ensures
        step matches Step::Write(bytes) && framing::arrival(
            framing::items(framing::extended(client, bytes@)).last(),
        ) == Arrival::Reset,
        after is Idle,
        attesters.1 == attesters.0,
{
    let empty = Seq::<u8>::empty();
    if resync {
        framing::law_resync(client, empty);
    } else {
        framing::law_frame_reads_back(empty);
    }
}

/// A hello is answered with a packet that is sealed to the key it announces, whenever the
/// attestation leaves room for it in a frame. The client reads that packet, whatever a
/// failed output left unfinished. Any other packet in place of a hello is answered with a
/// signal that the client reads as a reset.
pub proof fn law_hello_is_answered<A: Attester>(
    packet: Seq<u8>,
    attesters: (A, A),
    signer: SigningKey,
    timestamp: Option<i64>,
    resync: bool,
    step: Step,
    after: Phase,
    client: Input,
)
    requires
        reacts(
            Phase::AwaitHello,
            Arrival::Packet(packet),
            attesters.0,
            signer,
            timestamp,
            resync,
            step,
            after,
            attesters.1,
        ),
        resync || client == framing::boundary(),
        forall|attest: Seq<u8>|
            attesters.0.presents(attest, &attesters.1) ==> attest.len() <= 2_000_000,
    ensures
        match handshake::hello_keys(packet) {
            Some((host, crypto)) => {
                &&& step matches Step::Write(bytes)
                &&& framing::arrival(
                    framing::items(framing::extended(client, bytes@)).last(),
                ) matches Arrival::Packet(answer)
                &&& envelope::cose_recipient(answer) == Some(keys::xhpke_fingerprint(crypto))
                &&& after matches Phase::AwaitAck(pending)
                &&& pending.host_signer == host
                &&& exists|attest: Seq<u8>|
                    attesters.0.presents(attest, &attesters.1)
                        && #[trigger] handshake::answered_with(
                        answer,
                        attest,
                        (host, crypto),
                        pending,
                        signer,
                        timestamp,
                    )
            },
            None => {
                &&& step matches Step::Write(bytes)
                &&& framing::arrival(
                    framing::items(framing::extended(client, bytes@)).last(),
                ) == Arrival::Reset
                &&& after is Idle
            },
        },
{
    let empty = Seq::<u8>::empty();
    if resync {
        framing::law_resync(client, empty);
    } else {
        framing::law_frame_reads_back(empty);
    }
    if let Some(hello) = handshake::hello_keys(packet) {
        let attest = choose|attest: Seq<u8>|
            {
                &&& attesters.0.presents(attest, &attesters.1)
                &&& #[trigger] responds(hello, attest, signer, timestamp, resync, step, after)
            };
        handshake::law_attestation_fits(attest, signer, hello.1, timestamp);
        let pending = after->AwaitAck_0;
        let bytes = step->Write_0;
        let answer = choose|packet: Seq<u8>|
            {
                &&& #[trigger] pending.announced(packet, attest, signer, hello.1, timestamp)
                &&& cobs::encoded_bound(packet.len() as int) <= transport::MAX_FRAME_SIZE
                &&& cobs::carries(cobs::cobs_encoded(packet), packet)
                &&& bytes@ == framing::framed(resync, cobs::cobs_encoded(packet))
            };
        framing::law_packet_reads_back(client, resync, cobs::cobs_encoded(answer), answer);
        assert(handshake::answered_with(answer, attest, hello, pending, signer, timestamp));
    }
}

/// A send in a session succeeds whenever the message is within the limit and the sequence
/// has a number left for it. Only a message above the limit is refused for its size, which
/// leaves the session as it was. Without a session nothing is sent.
pub proof fn law_send_succeeds<A: Attester>(
    before: Server<A>,
    after: Server<A>,
    message: Seq<u8>,
    sent: Result<Vec<u8>, Refusal>,
)
    requires
        sends(before, after, message, sent),
    ensures
        sent is Ok <==> (before.phase() matches Phase::Established(session) && message.len()
            <= MAX_MESSAGE_SIZE && sealing::sender_sequence(session.sender) <= u64::MAX),
        sent matches Err(refusal) && refusal.error is PacketTooLarge ==> message.len()
            > MAX_MESSAGE_SIZE && after.phase() == before.phase(),
        before.phase() is Established && message.len() > MAX_MESSAGE_SIZE ==> (sent matches Err(
            refusal,
        ) && refusal.error == Error::PacketTooLarge(message.len() as usize)),
        !(before.phase() is Established) ==> (sent matches Err(refusal)
            && refusal.error is EncryptionFailed && refusal.signal is None),
{
}

/// The message that the server sends is the message that the client opens, whole and
/// unchanged, if the client stands at the same position of the session. What is handed out
/// is read as one packet, at a frame boundary or behind whatever a failed output left
/// unfinished.
pub proof fn law_message_arrives<A: Attester>(
    before: Server<A>,
    after: Server<A>,
    message: Seq<u8>,
    bytes: Vec<u8>,
    input: Input,
    receiver: OpeningContext,
    received: OpeningContext,
    opened: Result<Vec<u8>, Error>,
)
    requires
        sends(before, after, message, Ok(bytes)),
        before.phase() matches Phase::Established(session) && sealing::in_step(
            session.sender,
            receiver,
        ),
        before.resync() || input == framing::boundary(),
        framing::arrival(framing::items(framing::extended(input, bytes@)).last()) matches
            Arrival::Packet(packet) ==> sealing::opened_by(receiver, received, packet, opened),
    ensures
        framing::arrival(framing::items(framing::extended(input, bytes@)).last()) is Packet,
        opened matches Ok(plain) && plain@ == message,
        after.phase() matches Phase::Established(next) && sealing::in_step(next.sender, received),
{
    session::law_message_arrives(
        before.phase()->Established_0,
        after.phase()->Established_0,
        message,
        before.resync(),
        bytes@,
        input,
        receiver,
        received,
        opened,
    );
}

/// Only an ArkHello or a message that does not go out ends what the server had, and the
/// client is then told by a signal that it reads as a reset, whatever was left unfinished.
/// The next output starts with a delimiter exactly if this one failed.
pub proof fn law_outcome_settles<A: Attester>(
    before: Server<A>,
    after: Server<A>,
    written: bool,
    signal: Option<Vec<u8>>,
    client: Input,
)
    requires
        settles(before, after, written, signal),
    ensures
        signal is Some <==> !written && (before.output() == Output::Hello || before.output()
            == Output::Message),
        signal is Some ==> after.phase() is Idle,
        signal is None ==> after.phase() == before.phase(),
        signal matches Some(bytes) ==> framing::arrival(
            framing::items(framing::extended(client, bytes@)).last(),
        ) == Arrival::Reset,
        before.output() != Output::Settled ==> after.resync() == !written,
        after.output() == Output::Settled <==> signal is None,
{
    framing::law_resync(client, Seq::empty());
}

} // verus!
