//! Host side of the wire, issuing messages to a connected device. It initiates
//! sessions by signaling a transport reset and driving the handshake, afterward
//! encrypting outbound and decrypting inbound messages.
//!
//! The device attestation presented in the handshake is not interpreted by the
//! wire, it is handed to a `Verifier` deciding whether to trust the device.

use darkbio_crypto::xdsa::{PublicKey as VerifyingKey, SecretKey as SigningKey};
use darkbio_crypto::xhpke::Receiver as OpeningContext;
use vstd::prelude::*;

use crate::bytes::replace;
use crate::server;
use crate::transport;
use crate::transport::attestation::Attester;
use crate::transport::cobs;
use crate::transport::envelope;
use crate::transport::framing;
use crate::transport::framing::{Arrival, FrameReader, FrameWriter, Input, Item};
use crate::transport::handshake;
use crate::transport::handshake::{Answerer, HelloKeys};
use crate::transport::keys;
use crate::transport::sealing;
use crate::transport::session;
use crate::transport::session::Session;
use crate::transport::trust::Verifier;
use crate::transport::{Error, MAX_FRAME_SIZE, MAX_MESSAGE_SIZE};

verus! {

/// Most frames skipped while waiting for the answer to a hello, before giving up
/// on the peer. A well-behaved peer only ever leaves a handful behind, as its
/// writer blocks once the transport buffers fill up.
pub const MAX_STALE_FRAMES: usize = 32;

/// Where the host stands with its peer.
pub enum Phase {
    /// No session and no handshake in progress.
    Idle,
    /// The reset went out, the HostHello is to follow.
    Reset(HelloKeys),
    /// The HostHello went out, its answer is awaited. Counts the frames skipped.
    AwaitHello(HelloKeys, usize),
    /// The HostAck is going out.
    Acked(Session),
    /// A session is live in both directions.
    Established(Session),
}

/// What a handshake needs next.
pub enum Progress<I> {
    /// More input, the frames received so far being used up.
    Read,
    /// Another call, a stale frame having been skipped.
    Again,
    /// The bytes to be written and flushed, and the outcome reported.
    Write(Vec<u8>),
    /// The bytes of the final message to be written and flushed. The session
    /// starts once that is reported as done, with the verifier's info.
    Ack(Vec<u8>, I),
    /// Nothing, the handshake having failed.
    Failed(Error),
}

/// Refusal of a handshake that found too many frames in front of the answer.
pub open spec fn overrun(error: Error) -> bool {
    error matches Error::HandshakeFailed(reason) && reason@
        == "too many stale frames before ark hello"@
}

/// Failure to decrypt a packet in the session, followed by the detail.
pub open spec fn undecrypted(error: Error) -> bool {
    error matches Error::EncryptionFailed(reason) && "decryption failed: "@.is_prefix_of(reason@)
}

/// Progress of a handshake by a frame received while its answer is awaited. The
/// packet sealed to the fresh keys decides it. An undecodable frame fails it.
/// Everything else was sent before the peer saw the hello, and is skipped up to
/// a bound.
pub open spec fn greets<V: Verifier, I>(
    verifier: &V,
    hello: HelloKeys,
    stale: usize,
    arrival: Arrival,
    resync: bool,
    progress: Progress<I>,
    after: Phase,
) -> bool {
    match arrival {
        Arrival::Undecodable(err) => {
            &&& progress matches Progress::Failed(error)
            &&& error == Error::FrameDecodingFailed(err)
            &&& after == Phase::Idle
        },
        Arrival::Packet(packet) => if hello.addressed(packet) {
            concludes(verifier, hello, packet, resync, progress, after)
        } else {
            skips(hello, stale, progress, after)
        },
        _ => skips(hello, stale, progress, after),
    }
}

/// A stale frame is skipped, unless there were too many of them.
pub open spec fn skips<I>(
    hello: HelloKeys,
    stale: usize,
    progress: Progress<I>,
    after: Phase,
) -> bool {
    if stale < MAX_STALE_FRAMES {
        progress is Again && after == Phase::AwaitHello(hello, (stale + 1) as usize)
    } else {
        &&& progress matches Progress::Failed(error)
        &&& overrun(error)
        &&& after == Phase::Idle
    }
}

/// What the conclusion of a handshake makes of it. An ack is put on the wire as one
/// frame, unless it fits none.
pub open spec fn finishes<I>(
    concluded: Result<(Session, Vec<u8>, I), Error>,
    resync: bool,
    progress: Progress<I>,
    after: Phase,
) -> bool {
    match concluded {
        Ok((session, ack, info)) => {
            let fits = cobs::encoded_bound(ack@.len() as int) <= MAX_FRAME_SIZE;
            match progress {
                Progress::Ack(bytes, extracted) => {
                    &&& fits
                    &&& bytes@ == framing::framed(resync, cobs::cobs_encoded(ack@))
                    &&& cobs::carries(cobs::cobs_encoded(ack@), ack@)
                    &&& extracted == info
                    &&& after == Phase::Acked(session)
                },
                Progress::Failed(error) => {
                    &&& !fits
                    &&& error == Error::FrameTooLarge(cobs::capped_bound(ack@.len() as int))
                    &&& after == Phase::Idle
                },
                _ => false,
            }
        },
        Err(err) => {
            &&& progress matches Progress::Failed(error)
            &&& error == err
            &&& after == Phase::Idle
        },
    }
}

/// The packet sealed to the keys concludes the handshake, with an ack under an
/// identity that the verifier accepted or with a failure.
pub open spec fn concludes<V: Verifier, I>(
    verifier: &V,
    hello: HelloKeys,
    packet: Seq<u8>,
    resync: bool,
    progress: Progress<I>,
    after: Phase,
) -> bool {
    exists|concluded: Result<(Session, Vec<u8>, I), Error>|
        {
            &&& handshake::concludes(verifier, packet, hello, None, Answerer::Ark, concluded)
            &&& #[trigger] finishes(concluded, resync, progress, after)
        }
}

/// What the outcome of an output means. A failure ends the handshake or session, the
/// session of a handshake starts once its ack is out.
pub open spec fn settles(before: HostSide, after: HostSide, written: bool) -> bool {
    &&& after.input() == before.input()
    &&& !after.writing()
    &&& after.resync() == (if before.writing() {
        !written
    } else {
        before.resync()
    })
    &&& after.phase() == (if !before.writing() {
        before.phase()
    } else if !written {
        Phase::Idle
    } else {
        match before.phase() {
            Phase::Acked(session) => Phase::Established(session),
            phase => phase,
        }
    })
}

/// What a send does to the host and hands out. An oversized message is refused without
/// ending the session. A sequence that has run out ends it.
pub open spec fn sends(
    before: HostSide,
    after: HostSide,
    message: Seq<u8>,
    sent: Result<Vec<u8>, Error>,
) -> bool {
    &&& after.input() == before.input()
    &&& after.writing() == sent is Ok
    &&& after.resync() == (sent is Ok || before.resync())
    &&& match before.phase() {
        Phase::Established(session) => match sent {
            Ok(bytes) => {
                &&& after.phase() matches Phase::Established(next)
                &&& session.sends(next, message, before.resync(), bytes@)
            },
            Err(error) => if message.len() > MAX_MESSAGE_SIZE {
                &&& error == Error::PacketTooLarge(message.len() as usize)
                &&& after.phase() == before.phase()
            } else {
                &&& sealing::sender_sequence(session.sender) > u64::MAX
                &&& error is EncryptionFailed
                &&& after.phase() == Phase::Idle
            },
        },
        _ => {
            &&& sent matches Err(error)
            &&& error matches Error::EncryptionFailed(reason)
            &&& reason@ == "no active session"@
            &&& after.phase() == before.phase()
        },
    }
}

/// Host side of the wire.
pub struct HostSide {
    reader: FrameReader,  // Frames received
    writer: FrameWriter,  // Frames sent
    phase: Phase,  // Session or handshake in progress
    writing: bool,  // Whether the outcome of an output is awaited
}

impl HostSide {
    /// Input received and not used up yet.
    pub closed spec fn input(self) -> Input {
        self.reader@
    }

    /// Whether the next output starts with a delimiter, the last one having failed.
    pub closed spec fn resync(self) -> bool {
        self.writer.resync
    }

    /// Session or handshake in progress.
    pub closed spec fn phase(self) -> Phase {
        self.phase
    }

    /// Whether the outcome of an output is awaited.
    pub closed spec fn writing(self) -> bool {
        self.writing
    }

    /// Creates a host side without a session.
    pub fn new() -> (host: HostSide)
        ensures
            host.input() == (Input { pending: Seq::empty(), discarding: false }),
            !host.resync(),
            host.phase() == Phase::Idle,
            !host.writing(),
    {
        HostSide {
            reader: FrameReader::new(),
            writer: FrameWriter::new(),
            phase: Phase::Idle,
            writing: false,
        }
    }

    /// Takes in bytes received from the peer.
    pub fn feed(&mut self, bytes: &[u8])
        ensures
            final(self).input() == framing::extended(old(self).input(), bytes@),
            final(self).resync() == old(self).resync(),
            final(self).phase() == old(self).phase(),
            final(self).writing() == old(self).writing(),
    {
        self.reader.feed(bytes);
    }

    /// Ends a session or handshake in progress, as a failed read does.
    pub fn interrupt(&mut self)
        ensures
            final(self).phase() == Phase::Idle,
            final(self).input() == old(self).input(),
            final(self).resync() == old(self).resync(),
            final(self).writing() == old(self).writing(),
    {
        self.phase = Phase::Idle;
    }

    /// Drives the handshake one step. Outside of one it drops the session and
    /// starts with two zero bytes, the first terminating any interrupted message,
    /// the second signaling a fresh session. The hello follows with fresh keys,
    /// then frames are read until the peer's answer arrives. The verifier gets
    /// the device attestation in the answer.
    pub fn handshake<V: Verifier>(&mut self, verifier: &V) -> (progress: Progress<V::Info>)
        requires
            !old(self).writing(),
            !(old(self).phase() is Acked),
        ensures
            match old(self).phase() {
                Phase::Reset(hello) => {
                    &&& final(self).input() == old(self).input()
                    &&& progress matches Progress::Write(bytes)
                    &&& bytes@ == framing::framed(
                        old(self).resync(),
                        cobs::cobs_encoded(hello.pair()),
                    )
                    &&& cobs::carries(cobs::cobs_encoded(hello.pair()), hello.pair())
                    &&& final(self).phase() == Phase::AwaitHello(hello, 0)
                },
                Phase::AwaitHello(hello, stale) => {
                    let input = framing::past_oversized(old(self).input());
                    &&& final(self).input() == framing::after_item(input)
                    &&& match framing::next_item(input) {
                        None => progress is Read && final(self).phase() == old(self).phase(),
                        Some(item) => greets(
                            verifier,
                            hello,
                            stale,
                            framing::arrival(item),
                            old(self).resync(),
                            progress,
                            final(self).phase(),
                        ),
                    }
                },
                _ => {
                    &&& final(self).input() == old(self).input()
                    &&& progress matches Progress::Write(bytes)
                    &&& bytes@ == seq![0u8, 0u8]
                    &&& final(self).phase() is Reset
                },
            },
            match (old(self).phase(), progress) {
                (Phase::AwaitHello(hello, _), Progress::Ack(_, info)) => handshake::presented(
                    framing::next_item(framing::past_oversized(old(self).input())),
                    hello,
                ) matches Some(attest) && verifier.informs(attest, info),
                _ => true,
            },
            old(self).phase() is AwaitHello ==> framing::cut_off(
                framing::next_item(framing::past_oversized(old(self).input())),
            ),
            match old(self).phase() {
                Phase::Reset(hello) => handshake::hello_keys(hello.pair()) is Some,
                _ => true,
            },
            final(self).writing() == (progress is Write || progress is Ack),
            final(self).resync() == (progress is Write || progress is Ack || old(self).resync()),
    {
        let phase = replace(&mut self.phase, Phase::Idle);
        match phase {
            Phase::Reset(hello) => {
                let packet = hello.hello();
                match self.writer.send_packet(packet.as_slice()) {
                    Ok(bytes) => {
                        self.phase = Phase::AwaitHello(hello, 0);
                        self.writing = true;
                        Progress::Write(bytes)
                    },
                    Err(err) => Progress::Failed(err),
                }
            },
            Phase::AwaitHello(hello, stale) => self.await_hello(verifier, hello, stale),
            _ => {
                self.phase = Phase::Reset(HelloKeys::generate());
                self.writing = true;
                Progress::Write(self.writer.send_reset())
            },
        }
    }

    /// Takes the next frame while the answer to the hello is awaited.
    fn await_hello<V: Verifier>(&mut self, verifier: &V, hello: HelloKeys, stale: usize) -> (progress:
        Progress<V::Info>)
        requires
            old(self).phase == Phase::Idle,
            !old(self).writing,
        ensures
            final(self).reader@ == framing::after_item(
                framing::past_oversized(old(self).reader@),
            ),
            match framing::next_item(framing::past_oversized(old(self).reader@)) {
                None => progress is Read && final(self).phase == Phase::AwaitHello(hello, stale),
                Some(item) => greets(
                    verifier,
                    hello,
                    stale,
                    framing::arrival(item),
                    old(self).writer.resync,
                    progress,
                    final(self).phase,
                ),
            },
            progress matches Progress::Ack(_, info) ==> (handshake::presented(
                framing::next_item(framing::past_oversized(old(self).reader@)),
                hello,
            ) matches Some(attest) && verifier.informs(attest, info)),
            framing::cut_off(framing::next_item(framing::past_oversized(old(self).reader@))),
            final(self).writing == progress is Ack,
            !(progress is Write),
            final(self).writer.resync == (progress is Ack || old(self).writer.resync),
    {
        proof {
            framing::reveal_item(framing::past_oversized(self.reader@));
        }
        let frame = match self.reader.next_frame_blob() {
            None => {
                self.phase = Phase::AwaitHello(hello, stale);
                return Progress::Read;
            },
            Some(frame) => frame,
        };
        match framing::decode_frame(&frame) {
            Err(err) => return Progress::Failed(err),
            Ok(None) => {},
            Ok(Some(packet)) => {
                if hello.answered_by(packet.as_slice()) {
                    return self.conclude(verifier, hello, packet.as_slice());
                }
            },
        }
        if stale < MAX_STALE_FRAMES {
            self.phase = Phase::AwaitHello(hello, stale + 1);
            return Progress::Again;
        }
        Progress::Failed(
            Error::HandshakeFailed(String::from_str("too many stale frames before ark hello")),
        )
    }

    /// Concludes the handshake with the packet sealed to its keys.
    fn conclude<V: Verifier>(&mut self, verifier: &V, hello: HelloKeys, packet: &[u8]) -> (progress:
        Progress<V::Info>)
        requires
            old(self).phase == Phase::Idle,
            !old(self).writing,
        ensures
            final(self).reader == old(self).reader,
            concludes(
                verifier,
                hello,
                packet@,
                old(self).writer.resync,
                progress,
                final(self).phase,
            ),
            progress matches Progress::Ack(_, info) ==> (handshake::answer_read(packet@, hello) matches Some(
                (_, attest),
            ) && verifier.informs(attest, info)),
            final(self).writing == progress is Ack,
            final(self).writer.resync == (progress is Ack || old(self).writer.resync),
    {
        let concluded = handshake::conclude(hello, packet, verifier, None, Answerer::Ark);
        let ghost conclusion = concluded;
        let progress = self.finish(concluded);
        assert(finishes(conclusion, old(self).writer.resync, progress, self.phase));
        progress
    }

    /// Finishes the handshake with its conclusion.
    fn finish<I>(&mut self, concluded: Result<(Session, Vec<u8>, I), Error>) -> (progress: Progress<
        I,
    >)
        requires
            old(self).phase == Phase::Idle,
            !old(self).writing,
        ensures
            final(self).reader == old(self).reader,
            finishes(concluded, old(self).writer.resync, progress, final(self).phase),
            final(self).writing == progress is Ack,
            final(self).writer.resync == (progress is Ack || old(self).writer.resync),
    {
        match concluded {
            Ok((session, ack, info)) => match self.writer.send_packet(ack.as_slice()) {
                Ok(bytes) => {
                    self.phase = Phase::Acked(session);
                    self.writing = true;
                    Progress::Ack(bytes, info)
                },
                Err(err) => Progress::Failed(err),
            },
            Err(err) => Progress::Failed(err),
        }
    }

    /// Reports whether the output handed out last was written and flushed whole.
    /// A failure ends the handshake or session, as the peer cannot follow past
    /// the gap. The session starts once its ack is out.
    pub fn sent(&mut self, written: bool)
        ensures
            settles(*old(self), *final(self), written),
    {
        if !self.writing {
            return ;
        }
        self.writing = false;
        self.writer.complete(written);
        let phase = replace(&mut self.phase, Phase::Idle);
        if written {
            self.phase = match phase {
                Phase::Acked(session) => Phase::Established(session),
                phase => phase,
            };
        }
    }

    /// Reads the next message received, or `None` if more input is needed. An
    /// empty frame is the peer telling that it has no session. It, an undecodable
    /// frame and a packet that does not decrypt end the session.
    pub fn next_message(&mut self) -> (message: Option<Result<Vec<u8>, Error>>)
        requires
            !old(self).writing(),
        ensures
            final(self).input() == framing::after_item(
                framing::past_oversized(old(self).input()),
            ),
            final(self).resync() == old(self).resync(),
            !final(self).writing(),
            framing::cut_off(framing::next_item(framing::past_oversized(old(self).input()))),
            match framing::next_item(framing::past_oversized(old(self).input())) {
                None => message is None && final(self).phase() == old(self).phase(),
                Some(item) => message matches Some(message) && receives(
                    old(self).phase(),
                    framing::arrival(item),
                    message,
                    final(self).phase(),
                ),
            },
    {
        proof {
            framing::reveal_item(framing::past_oversized(self.reader@));
        }
        let frame = match self.reader.next_frame_blob() {
            None => return None,
            Some(frame) => frame,
        };
        let phase = replace(&mut self.phase, Phase::Idle);
        let packet = match framing::decode_frame(&frame) {
            Err(err) => return Some(Err(err)),
            Ok(None) => return Some(Err(Error::SessionReset)),
            Ok(Some(packet)) => packet,
        };
        match phase {
            Phase::Established(mut session) => match session.open(packet.as_slice()) {
                Ok(message) => {
                    self.phase = Phase::Established(session);
                    Some(Ok(message))
                },
                Err(Error::EncryptionFailed(detail)) => {
                    let mut reason = String::from_str("decryption failed: ");
                    reason.append(detail.as_str());
                    proof {
                        let prefix = "decryption failed: "@;
                        assert(reason@.take(prefix.len() as int) =~= prefix);
                    }
                    Some(Err(Error::EncryptionFailed(reason)))
                },
                Err(err) => Some(Err(err)),
            },
            _ => Some(Err(Error::EncryptionFailed(String::from_str("no active session")))),
        }
    }

    /// Seals a message with the session and hands out its frame. Fails without a
    /// session. An oversized message is refused without ending the session, a
    /// failure of the sealing ends it.
    pub fn send_message(&mut self, message: &[u8]) -> (sent: Result<Vec<u8>, Error>)
        requires
            !old(self).writing(),
        ensures
            sends(*old(self), *final(self), message@, sent),
    {
        let phase = replace(&mut self.phase, Phase::Idle);
        let mut session = match phase {
            Phase::Established(session) => session,
            phase => {
                self.phase = phase;
                return Err(Error::EncryptionFailed(String::from_str("no active session")));
            },
        };
        match session.seal(message) {
            Ok(packet) => {
                proof {
                    transport::lemma_max_message_size(message@.len() as int);
                }
                self.phase = Phase::Established(session);
                match self.writer.send_packet(packet.as_slice()) {
                    Ok(bytes) => {
                        self.writing = true;
                        Ok(bytes)
                    },
                    Err(error) => Err(error),
                }
            },
            Err(Error::PacketTooLarge(size)) => {
                self.phase = Phase::Established(session);
                Err(Error::PacketTooLarge(size))
            },
            Err(error) => Err(error),
        }
    }

    /// Takes the next packet received without looking at the session.
    pub fn next_packet_blob(&mut self) -> (packet: Option<Result<Option<Vec<u8>>, Error>>)
        ensures
            framing::reads_packet(
                framing::past_oversized(old(self).input()),
                final(self).input(),
                packet,
            ),
            final(self).resync() == old(self).resync(),
            final(self).phase() == old(self).phase(),
            final(self).writing() == old(self).writing(),
    {
        proof {
            framing::reveal_item(framing::past_oversized(self.reader@));
        }
        match self.reader.next_frame_blob() {
            None => None,
            Some(frame) => Some(framing::decode_frame(&frame)),
        }
    }

    /// Puts a packet on the wire without looking at the session.
    pub fn send_packet_blob(&mut self, packet: &[u8]) -> (output: Result<Vec<u8>, Error>)
        requires
            !old(self).writing(),
        ensures
            final(self).input() == old(self).input(),
            final(self).phase() == old(self).phase(),
            final(self).writing() == output is Ok,
            final(self).resync() == (output is Ok || old(self).resync()),
            match output {
                Ok(bytes) => {
                    &&& cobs::encoded_bound(packet@.len() as int) <= transport::MAX_FRAME_SIZE
                    &&& bytes@ == framing::framed(
                        old(self).resync(),
                        cobs::cobs_encoded(packet@),
                    )
                    &&& cobs::carries(cobs::cobs_encoded(packet@), packet@)
                },
                Err(error) => {
                    &&& cobs::encoded_bound(packet@.len() as int) > transport::MAX_FRAME_SIZE
                    &&& error == Error::FrameTooLarge(cobs::capped_bound(packet@.len() as int))
                },
            },
    {
        let output = self.writer.send_packet(packet);
        self.writing = output.is_ok();
        output
    }

    /// Takes the next frame received without decoding it.
    pub fn next_frame_blob(&mut self) -> (frame: Option<Vec<u8>>)
        ensures
            framing::reads_frame(old(self).input(), final(self).input(), frame),
            final(self).resync() == old(self).resync(),
            final(self).phase() == old(self).phase(),
            final(self).writing() == old(self).writing(),
    {
        self.reader.next_frame_blob()
    }

    /// Puts a frame body on the wire as it is.
    pub fn send_frame_blob(&mut self, frame: &[u8]) -> (output: Vec<u8>)
        requires
            !old(self).writing(),
        ensures
            final(self).input() == old(self).input(),
            final(self).phase() == old(self).phase(),
            final(self).writing(),
            final(self).resync(),
            output@ == framing::framed(old(self).resync(), frame@),
    {
        self.writing = true;
        self.writer.send_frame_blob(frame)
    }
}

/// What reading a message gives for what arrives, by where the host stands, and
/// where it stands afterwards.
pub open spec fn receives(
    before: Phase,
    arrival: Arrival,
    message: Result<Vec<u8>, Error>,
    after: Phase,
) -> bool {
    match (before, arrival) {
        (_, Arrival::Reset) => {
            &&& message matches Err(error)
            &&& error == Error::SessionReset
            &&& after == Phase::Idle
        },
        (_, Arrival::Undecodable(err)) => {
            &&& message matches Err(error)
            &&& error == Error::FrameDecodingFailed(err)
            &&& after == Phase::Idle
        },
        (Phase::Established(session), Arrival::Packet(packet)) => {
            &&& session.reads_back(packet)
            &&& match session.message_in(packet) {
                Some(bytes) => {
                    &&& message matches Ok(received)
                    &&& received@ == bytes
                    &&& after matches Phase::Established(next)
                    &&& session.received(next)
                },
                None => {
                    &&& message matches Err(error)
                    &&& undecrypted(error)
                    &&& after == Phase::Idle
                },
            }
        },
        _ => {
            &&& message matches Err(error)
            &&& error matches Error::EncryptionFailed(reason)
            &&& reason@ == "no active session"@
            &&& after == Phase::Idle
        },
    }
}

/// What a send puts on the wire is one frame, which is read first at a frame boundary,
/// as the packet of the message, whatever follows it.
proof fn lemma_send_reads_back(
    session: Session,
    next: Session,
    message: Seq<u8>,
    bytes: Seq<u8>,
    later: Seq<u8>,
)
    requires
        session.sends(next, message, false, bytes),
    ensures
        ({
            let input = framing::extended(framing::boundary(), bytes + later);
            &&& framing::past_oversized(input) == input
            &&& framing::next_item(input) matches Some(item)
            &&& framing::arrival(item) == Arrival::Packet(session.next_packet(message))
            &&& framing::after_item(input) == framing::extended(framing::boundary(), later)
        }),
{
    framing::law_frame_reads_first(cobs::cobs_encoded(session.next_packet(message)), later);
}

/// A message that the host sends is the message that the Ark receives, whatever was sent
/// behind it. Both sides are then ready for the next one, which is first in what is left
/// to be read.
pub proof fn law_request_arrives<A: Attester>(
    host: Session,
    next: Session,
    message: Seq<u8>,
    bytes: Seq<u8>,
    later: Seq<u8>,
    ark: Session,
    item: Item,
    attesters: (A, A),
    signer: SigningKey,
    timestamp: Option<i64>,
    resync: bool,
    step: server::Step,
    after: server::Phase,
)
    requires
        host.sends(next, message, false, bytes),
        sealing::in_step(host.sender, ark.receiver),
        framing::next_item(
            framing::past_oversized(framing::extended(framing::boundary(), bytes + later)),
        ) == Some(item),
        server::reacts(
            server::Phase::Established(ark),
            framing::arrival(item),
            attesters.0,
            signer,
            timestamp,
            resync,
            step,
            after,
            attesters.1,
        ),
    ensures
        framing::after_item(framing::extended(framing::boundary(), bytes + later))
            == framing::extended(framing::boundary(), later),
        step matches server::Step::Message(received) && received@ == message,
        after matches server::Phase::Established(following) && sealing::in_step(
            next.sender,
            following.receiver,
        ) && following.sender == ark.sender,
{
    lemma_send_reads_back(host, next, message, bytes, later);
}

/// A message that the Ark sends is the message that the host receives, whatever was sent
/// behind it. Both sides are then ready for the next one, which is first in what is left
/// to be read.
pub proof fn law_reply_arrives(
    ark: Session,
    next: Session,
    message: Seq<u8>,
    bytes: Seq<u8>,
    later: Seq<u8>,
    host: Session,
    item: Item,
    received: Result<Vec<u8>, Error>,
    after: Phase,
)
    requires
        ark.sends(next, message, false, bytes),
        sealing::in_step(ark.sender, host.receiver),
        framing::next_item(
            framing::past_oversized(framing::extended(framing::boundary(), bytes + later)),
        ) == Some(item),
        receives(Phase::Established(host), framing::arrival(item), received, after),
    ensures
        framing::after_item(framing::extended(framing::boundary(), bytes + later))
            == framing::extended(framing::boundary(), later),
        received matches Ok(bytes) && bytes@ == message,
        after matches Phase::Established(following) && sealing::in_step(
            next.sender,
            following.receiver,
        ) && following.sender == host.sender,
{
    lemma_send_reads_back(ark, next, message, bytes, later);
}

/// A message read is the one that the packet holds at the host's position in the session,
/// and everything else fails for what it is and leaves the host without a session.
pub proof fn law_receive_is_exact(
    before: Phase,
    item: Item,
    message: Result<Vec<u8>, Error>,
    after: Phase,
)
    requires
        receives(before, framing::arrival(item), message, after),
        item is Frame,
    ensures
        ({
            let frame = item->Frame_0;
            if frame.len() == 0 {
                message == Err::<Vec<u8>, Error>(Error::SessionReset)
            } else {
                match (cobs::cobs_decoded(frame), before) {
                    (Err(err), _) => message == Err::<Vec<u8>, Error>(
                        Error::FrameDecodingFailed(err),
                    ),
                    (Ok(packet), Phase::Established(session)) => match sealing::message_of(
                        sealing::receiver_context(session.receiver),
                        sealing::receiver_sequence(session.receiver),
                        packet,
                    ) {
                        Some(opened) => {
                            &&& message matches Ok(bytes)
                            &&& bytes@ == opened
                            &&& after matches Phase::Established(next)
                            &&& next.sender == session.sender
                            &&& sealing::receiver_context(next.receiver)
                                == sealing::receiver_context(session.receiver)
                            &&& sealing::receiver_sequence(next.receiver)
                                == sealing::receiver_sequence(session.receiver) + 1
                        },
                        None => message matches Err(Error::EncryptionFailed(text))
                            && "decryption failed: "@.is_prefix_of(text@),
                    },
                    (Ok(_), _) => message matches Err(Error::EncryptionFailed(text)) && text@
                        == "no active session"@,
                }
            }
        }),
        message is Err ==> after is Idle,
{
}

/// While the answer is awaited, only the packet sealed to the fresh keys concludes the
/// handshake. A frame that does not decode fails it. Any other frame is skipped, up to
/// thirty-two of them, each of which counts.
pub proof fn law_stale_frames_are_counted<V: Verifier, I>(
    verifier: &V,
    hello: HelloKeys,
    stale: usize,
    frame: Seq<u8>,
    resync: bool,
    progress: Progress<I>,
    after: Phase,
)
    requires
        greets(
            verifier,
            hello,
            stale,
            framing::arrival(Item::Frame(frame)),
            resync,
            progress,
            after,
        ),
    ensures
        ({
            let decoded = cobs::cobs_decoded(frame);
            let answers = frame.len() > 0 && (decoded matches Ok(packet)
                && envelope::cose_recipient(packet) == Some(
                keys::xhpke_fingerprint(keys::xhpke_public(hello.crypto)),
            ));
            if frame.len() > 0 && decoded is Err {
                &&& progress == Progress::<I>::Failed(Error::FrameDecodingFailed(decoded->Err_0))
                &&& after is Idle
            } else if answers {
                progress is Ack || progress is Failed
            } else if stale < 32 {
                &&& progress is Again
                &&& after == Phase::AwaitHello(hello, (stale + 1) as usize)
            } else {
                &&& progress matches Progress::Failed(Error::HandshakeFailed(text))
                &&& text@ == "too many stale frames before ark hello"@
                &&& after is Idle
            }
        }),
{
    if let Arrival::Packet(packet) = framing::arrival(Item::Frame(frame)) {
        if hello.addressed(packet) {
            assert(concludes(verifier, hello, packet, resync, progress, after));
        }
    }
}

/// An ack goes out only for a session that a packet received vouches for, and is the packet
/// that the peer reads, at a frame boundary or behind whatever a failed output left
/// unfinished.
pub proof fn law_ack_is_earned<V: Verifier, I>(
    verifier: &V,
    hello: HelloKeys,
    stale: usize,
    arrival: Arrival,
    resync: bool,
    bytes: Vec<u8>,
    info: I,
    after: Phase,
    input: Input,
)
    requires
        greets(verifier, hello, stale, arrival, resync, Progress::Ack(bytes, info), after),
        resync || input == framing::boundary(),
    ensures
        arrival is Packet,
        after is Acked,
        framing::arrival(framing::items(framing::extended(input, bytes@)).last()) is Packet,
        exists|identity: VerifyingKey, signed: Seq<u8>, payload: Seq<u8>| #[trigger]
            handshake::vouches(
                verifier,
                arrival->Packet_0,
                hello,
                identity,
                signed,
                payload,
                after->Acked_0,
                framing::arrival(
                    framing::items(framing::extended(input, bytes@)).last(),
                )->Packet_0,
                None,
            ),
{
    let progress = Progress::Ack(bytes, info);
    let packet = arrival->Packet_0;
    assert(concludes(verifier, hello, packet, resync, progress, after));
    let concluded = choose|concluded: Result<(Session, Vec<u8>, I), Error>|
        {
            &&& handshake::concludes(verifier, packet, hello, None, Answerer::Ark, concluded)
            &&& #[trigger] finishes(concluded, resync, progress, after)
        };
    let (session, ack, extracted) = concluded->Ok_0;
    handshake::law_session_is_vouched_for(
        verifier,
        packet,
        hello,
        None,
        Answerer::Ark,
        session,
        ack,
        extracted,
    );
    framing::law_packet_reads_back(input, resync, cobs::cobs_encoded(ack@), ack@);
    let read = framing::arrival(framing::items(framing::extended(input, bytes@)).last());
    assert(read == Arrival::Packet(ack@));
    let (identity, signed, payload) = choose|
        identity: VerifyingKey,
        signed: Seq<u8>,
        payload: Seq<u8>,
    | #[trigger]
        handshake::vouches(
            verifier,
            packet,
            hello,
            identity,
            signed,
            payload,
            session,
            ack@,
            None,
        );
    assert(handshake::vouches(
        verifier,
        arrival->Packet_0,
        hello,
        identity,
        signed,
        payload,
        after->Acked_0,
        read->Packet_0,
        None,
    ));
}

/// A send in a session succeeds whenever the message is within the limit and the sequence
/// has a number left for it. Only a message above the limit is refused for its size, which
/// leaves the session as it was. Without a session nothing is sent.
pub proof fn law_send_succeeds(
    before: HostSide,
    after: HostSide,
    message: Seq<u8>,
    sent: Result<Vec<u8>, Error>,
)
    requires
        sends(before, after, message, sent),
    ensures
        sent is Ok <==> (before.phase() matches Phase::Established(session) && message.len()
            <= MAX_MESSAGE_SIZE && sealing::sender_sequence(session.sender) <= u64::MAX),
        sent matches Err(error) && error is PacketTooLarge ==> message.len() > MAX_MESSAGE_SIZE
            && after.phase() == before.phase(),
        before.phase() is Established && message.len() > MAX_MESSAGE_SIZE ==> (sent matches Err(
            error,
        ) && error == Error::PacketTooLarge(message.len() as usize)),
        !(before.phase() is Established) ==> (sent matches Err(Error::EncryptionFailed(text))
            && text@ == "no active session"@),
{
}

/// The message that the host sends is the message that the peer opens, whole and unchanged,
/// if the peer stands at the same position of the session. What is handed out is read as one
/// packet, at a frame boundary or behind whatever a failed output left unfinished.
pub proof fn law_message_arrives(
    before: HostSide,
    after: HostSide,
    message: Seq<u8>,
    bytes: Vec<u8>,
    input: Input,
    receiver: OpeningContext,
    received: OpeningContext,
    opened: Result<Vec<u8>, Error>,
)
    requires
        sends(before, after, message, Ok(bytes)),
        before.phase() matches Phase::Established(session) && sealing::in_step(
            session.sender,
            receiver,
        ),
        before.resync() || input == framing::boundary(),
        framing::arrival(framing::items(framing::extended(input, bytes@)).last()) matches
            Arrival::Packet(packet) ==> sealing::opened_by(receiver, received, packet, opened),
    ensures
        framing::arrival(framing::items(framing::extended(input, bytes@)).last()) is Packet,
        opened matches Ok(plain) && plain@ == message,
        after.phase() matches Phase::Established(next) && sealing::in_step(next.sender, received),
{
    session::law_message_arrives(
        before.phase()->Established_0,
        after.phase()->Established_0,
        message,
        before.resync(),
        bytes@,
        input,
        receiver,
        received,
        opened,
    );
}

/// A session starts only by its ack going out, and ends by any output that does not. The
/// next output starts with a delimiter exactly if this one failed.
pub proof fn law_outcome_settles(before: HostSide, after: HostSide, written: bool)
    requires
        settles(before, after, written),
        before.writing(),
    ensures
        !written ==> after.phase() is Idle && after.resync(),
        written ==> !after.resync(),
        after.phase() is Established <==> written && (before.phase() is Established
            || before.phase() is Acked),
        written && before.phase() is Acked ==> after.phase() == Phase::Established(
            before.phase()->Acked_0,
        ),
        written && !(before.phase() is Acked) ==> after.phase() == before.phase(),
        !after.writing(),
{
}

} // verus!
