//! Client side of the wire, an encrypted transport for exchanging messages with a
//! connected server. It initiates sessions by signaling a transport reset and
//! driving the handshake, afterward encrypting outbound and decrypting inbound
//! messages.
//!
//! An empty frame from the server means it has no session with the client
//! anymore. It surfaces as `Error::SessionReset` with the client's session dropped
//! too, so the caller can handshake again instead of waiting on a dead session.
//!
//! The client is driven from outside: it is fed the bytes read, and each step of a
//! handshake says what to read or write next. Times are nanoseconds on a clock of
//! the driver's.

use darkbio_crypto::xdsa::PublicKey as VerifyingKey;
use darkbio_crypto::xhpke::{Receiver as OpeningContext, Sender as SealingContext};
use vstd::prelude::*;

pub use super::trust::{Roots, Verifier};

use super::cobs;
use super::envelope;
use super::framing;
use super::framing::{Arrival, FrameReader, Input};
use super::handshake;
use super::handshake::{Answerer, HelloKeys};
use super::io::{check_deadline, ErrorKind};
use super::keys;
use super::outbound;
use super::outbound::{Outbound, Output, Sender};
use super::sealing;
use super::server::DEFAULT_HANDSHAKE_TIMEOUT;
use super::session::Session;
use super::{Error, MAX_FRAME_SIZE};
use crate::bytes::replace;

verus! {

/// Progress of the handshake: its keys, the signing time of the ack if it is not
/// the clock's, and the deadline of the attempt.
pub enum Phase {
    /// No handshake is in progress.
    Idle,
    /// The reset went out, the HostHello is to follow.
    Reset(HelloKeys, Option<i64>, u64),
    /// The HostHello went out, its answer is awaited.
    AwaitHello(HelloKeys, Option<i64>, u64),
    /// The HostAck is going out.
    Acked(Session),
}

/// What a handshake needs next. Reads and writes come with the deadline of the
/// attempt.
pub enum Progress<I> {
    /// More input, the frames received so far being used up.
    Read(u64),
    /// Another call, a stale frame having been skipped.
    Again,
    /// The bytes to be written and flushed, and the outcome reported.
    Write(Vec<u8>, u64),
    /// The bytes of the final message to be written and flushed. The session
    /// starts once that is reported as done, with the verifier's info.
    Ack(Vec<u8>, u64, I),
    /// The handshake failed.
    Failed(Error),
}

/// What the conclusion of a handshake makes of it. An ack is put on the wire as one
/// frame, unless it fits none.
pub open spec fn finishes<I>(
    concluded: Result<(Session, Vec<u8>, I), Error>,
    deadline: u64,
    sent: Outbound,
    out: Outbound,
    progress: Progress<I>,
    after: Phase,
) -> bool {
    match concluded {
        Ok((session, ack, info)) => {
            let fits = cobs::encoded_bound(ack@.len() as int) <= MAX_FRAME_SIZE;
            match progress {
                Progress::Ack(bytes, limit, extracted) => {
                    &&& fits
                    &&& bytes@ == framing::framed(sent.resync(), cobs::cobs_encoded(ack@))
                    &&& cobs::carries(cobs::cobs_encoded(ack@), ack@)
                    &&& limit == deadline
                    &&& extracted == info
                    &&& after == Phase::Acked(session)
                    &&& outbound::outbound_writes(sent, out, Output::Packet, false)
                },
                Progress::Failed(error) => {
                    &&& !fits
                    &&& error == Error::FrameTooLarge(cobs::capped_bound(ack@.len() as int))
                    &&& after == Phase::Idle
                    &&& out == sent
                },
                _ => false,
            }
        },
        Err(err) => {
            &&& progress matches Progress::Failed(error)
            &&& error == err
            &&& after == Phase::Idle
            &&& out == sent
        },
    }
}

/// The packet sealed to the keys concludes the handshake, with an ack under an
/// identity that the verifier accepted or with a failure.
pub open spec fn concludes<V: Verifier, I>(
    verifier: &V,
    hello: HelloKeys,
    timestamp: Option<i64>,
    deadline: u64,
    packet: Seq<u8>,
    sent: Outbound,
    out: Outbound,
    progress: Progress<I>,
    after: Phase,
) -> bool {
    exists|concluded: Result<(Session, Vec<u8>, I), Error>|
        {
            &&& handshake::concludes(
                verifier,
                packet,
                hello,
                timestamp,
                Answerer::Server,
                concluded,
            )
            &&& #[trigger] finishes(concluded, deadline, sent, out, progress, after)
        }
}

/// Progress of a handshake by a frame received while its answer is awaited. The
/// packet sealed to the fresh keys decides it. Everything else is left over from
/// before the server saw the hello, and is skipped: empty frames, undecodable and
/// oversized ones, and packets sealed to other keys.
pub open spec fn greets<V: Verifier, I>(
    verifier: &V,
    hello: HelloKeys,
    timestamp: Option<i64>,
    deadline: u64,
    arrival: Arrival,
    sent: Outbound,
    out: Outbound,
    progress: Progress<I>,
    after: Phase,
) -> bool {
    match arrival {
        Arrival::Packet(packet) if hello.addressed(packet) => concludes(
            verifier,
            hello,
            timestamp,
            deadline,
            packet,
            sent,
            out,
            progress,
            after,
        ),
        _ => {
            &&& progress is Again
            &&& after == Phase::AwaitHello(hello, timestamp, deadline)
            &&& out == sent
        },
    }
}

/// A handshake starts: the reset goes out, no old frame following it.
pub open spec fn starts<I>(
    sent: Outbound,
    out: Outbound,
    deadline: u64,
    progress: Progress<I>,
) -> bool {
    &&& progress matches Progress::Write(bytes, limit)
    &&& bytes@ == seq![0u8, 0u8]
    &&& limit == deadline
    &&& outbound::outbound_writes(sent, out, Output::Signal, true)
}

/// A handshake starts with given keys and signing time.
pub open spec fn opens<I>(
    before: Client,
    after: Client,
    sent: Outbound,
    out: Outbound,
    hello: HelloKeys,
    timestamp: i64,
    now: u64,
    progress: Progress<I>,
) -> bool {
    &&& starts(sent, out, (now + before.timeout()) as u64, progress)
    &&& after.phase() == Phase::Reset(hello, Some(timestamp), (now + before.timeout()) as u64)
    &&& after.receiver() is None
    &&& after.input() == before.input()
    &&& after.session() == before.session()
    &&& after.timeout() == before.timeout()
}

/// The hello follows the reset.
pub open spec fn announces<I>(
    hello: HelloKeys,
    timestamp: Option<i64>,
    deadline: u64,
    sent: Outbound,
    out: Outbound,
    progress: Progress<I>,
    after: Phase,
) -> bool {
    &&& progress matches Progress::Write(bytes, limit)
    &&& bytes@ == framing::framed(sent.resync(), cobs::cobs_encoded(hello.pair()))
    &&& cobs::carries(cobs::cobs_encoded(hello.pair()), hello.pair())
    &&& handshake::hello_keys(hello.pair()) == Some(hello.public())
    &&& limit == deadline
    &&& outbound::outbound_writes(sent, out, Output::Packet, false)
    &&& after == Phase::AwaitHello(hello, timestamp, deadline)
}

/// Client side of the wire.
pub struct Client {
    reader: FrameReader,  // Frames received
    receiver: Option<OpeningContext>,  // Receiving context of the session
    session: u64,  // Number of the session the receiving context belongs to
    phase: Phase,  // Handshake in progress
    timeout: u64,  // Budget for each handshake
}

/// Error saying that there is no session.
pub open spec fn no_session(error: Error) -> bool {
    error matches Error::EncryptionFailed(reason) && reason@ == "no active session"@
}

/// What receiving does with a frame while there is a receiving context. A packet
/// that decrypts in the session is delivered. An empty frame is the server telling
/// that it has no session. It and everything else ends the session.
pub open spec fn receives(
    before: Client,
    after: Client,
    sent: Outbound,
    out: Outbound,
    arrival: Arrival,
    message: Result<Vec<u8>, Error>,
) -> bool {
    let opened = match (arrival, before.receiver()) {
        (Arrival::Packet(packet), Some(receiver)) => if sent.bound_is(before.session()) {
            sealing::message_of(
                sealing::receiver_context(receiver),
                sealing::receiver_sequence(receiver),
                packet,
            )
        } else {
            None
        },
        _ => None,
    };
    &&& match (arrival, before.receiver()) {
        (Arrival::Packet(packet), Some(receiver)) => sent.bound_is(before.session())
            ==> sealing::reads_back(
            sealing::receiver_context(receiver),
            sealing::receiver_sequence(receiver),
            packet,
        ),
        _ => true,
    }
    &&& match opened {
        Some(bytes) => {
            &&& message matches Ok(received)
            &&& received@ == bytes
            &&& out == sent
            &&& before.receiver() matches Some(receiver)
            &&& after.receiver() matches Some(next)
            &&& sealing::receiver_context(next) == sealing::receiver_context(receiver)
            &&& sealing::receiver_sequence(next) == sealing::receiver_sequence(receiver) + 1
        },
        None => {
            &&& message matches Err(error)
            &&& match arrival {
                Arrival::Reset => error == Error::SessionReset,
                Arrival::Undecodable(err) => error == Error::FrameDecodingFailed(err),
                Arrival::Oversized => error == Error::FrameTooLarge(
                    (super::MAX_FRAME_SIZE + 1) as usize,
                ),
                Arrival::Packet(_) => if sent.bound_is(before.session()) {
                    error is EncryptionFailed
                } else {
                    no_session(error)
                },
            }
            &&& after.receiver() is None
            &&& out.context() == (if sent.bound_is(before.session()) {
                None
            } else {
                sent.context()
            })
            &&& outbound::same_but_context(sent, out)
        },
    }
}

/// What receiving does. Without a receiving context it fails before taking any
/// input. Otherwise it takes the next frame, if there is one.
pub open spec fn takes(
    before: Client,
    after: Client,
    sent: Outbound,
    out: Outbound,
    message: Option<Result<Vec<u8>, Error>>,
) -> bool {
    &&& after.phase() == before.phase()
    &&& after.session() == before.session()
    &&& after.timeout() == before.timeout()
    &&& if before.receiver() is None {
        &&& message matches Some(Err(error))
        &&& no_session(error)
        &&& after.receiver() is None
        &&& after.input() == before.input()
        &&& out == sent
    } else {
        &&& after.input() == framing::after_item(before.input())
        &&& match framing::next_item(before.input()) {
            None => {
                &&& message is None
                &&& after.receiver() == before.receiver()
                &&& out == sent
            },
            Some(item) => {
                &&& message matches Some(message)
                &&& receives(before, after, sent, out, framing::arrival(item), message)
            },
        }
    }
}

/// What one step of a handshake does. Outside of one it ends the session and sends the
/// reset. The hello follows, then frames are taken until the answer arrives or the
/// attempt runs out of time.
pub open spec fn drives<V: Verifier, I>(
    before: Client,
    after: Client,
    sent: Outbound,
    out: Outbound,
    verifier: &V,
    now: u64,
    progress: Progress<I>,
) -> bool {
    &&& after.timeout() == before.timeout()
    &&& after.session() == before.session()
    &&& match before.phase() {
        Phase::Reset(hello, timestamp, deadline) => {
            &&& after.receiver() == before.receiver()
            &&& after.input() == before.input()
            &&& announces(
                hello,
                timestamp,
                deadline,
                sent,
                out,
                progress,
                after.phase(),
            )
        },
        Phase::AwaitHello(hello, timestamp, deadline) => {
            &&& after.receiver() == before.receiver()
            &&& if now >= deadline {
                &&& progress == Progress::<I>::Failed(
                    Error::RecvFailed(ErrorKind::TimedOut),
                )
                &&& after.phase() == Phase::Idle
                &&& after.input() == before.input()
                &&& out == sent
            } else {
                &&& after.input() == framing::after_item(before.input())
                &&& match framing::next_item(before.input()) {
                    None => {
                        &&& progress == Progress::<I>::Read(deadline)
                        &&& after.phase() == before.phase()
                        &&& out == sent
                    },
                    Some(item) => greets(
                        verifier,
                        hello,
                        timestamp,
                        deadline,
                        framing::arrival(item),
                        sent,
                        out,
                        progress,
                        after.phase(),
                    ),
                }
            }
        },
        _ => {
            &&& starts(
                sent,
                out,
                (now + before.timeout()) as u64,
                progress,
            )
            &&& after.phase() matches Phase::Reset(_, timestamp, deadline)
            &&& timestamp is None
            &&& deadline == now + before.timeout()
            &&& after.receiver() is None
            &&& after.input() == before.input()
        },
    }
}

/// What the outcome of an output does to a handshake. A failure ends it. The session
/// starts once its ack is out, with nothing left to recover from.
pub open spec fn settles(
    before: Client,
    after: Client,
    sent: Outbound,
    out: Outbound,
    outcome: Result<(), ErrorKind>,
    result: Result<(), Error>,
) -> bool {
    &&& after.input() == before.input()
    &&& after.timeout() == before.timeout()
    &&& out.side() == sent.side()
    &&& match outcome {
        Err(kind) => {
            &&& result == Err::<(), Error>(Error::SendFailed(kind))
            &&& after.phase() == Phase::Idle
            &&& after.receiver() == before.receiver()
            &&& after.session() == before.session()
            &&& outbound::outbound_settles(sent, out, outcome, None)
        },
        Ok(_) => {
            &&& result is Ok
            &&& match before.phase() {
                Phase::Acked(session) => {
                    &&& after.phase() == Phase::Idle
                    &&& after.receiver() == Some(session.receiver)
                    &&& after.session() == out.bound()
                    &&& out.context() == Some(session.sender)
                    &&& out.sessions() == sent.sessions() + 1
                    &&& out.output() == Output::Settled
                    &&& out.resync() == (sent.output() == Output::Settled && sent.resync())
                },
                phase => {
                    &&& after.phase() == phase
                    &&& after.receiver() == before.receiver()
                    &&& after.session() == before.session()
                    &&& outbound::outbound_settles(
                        sent,
                        out,
                        outcome,
                        None,
                    )
                },
            }
        },
    }
}

/// What a failed read does. Both directions of a session go together, and so does a
/// handshake in progress.
pub open spec fn interrupts(before: Client, after: Client, sent: Outbound, out: Outbound) -> bool {
    &&& after.phase() == Phase::Idle
    &&& after.receiver() is None
    &&& after.input() == before.input()
    &&& after.session() == before.session()
    &&& after.timeout() == before.timeout()
    &&& out.context() == (if before.receiver() is Some && sent.bound_is(before.session()) {
        None
    } else {
        sent.context()
    })
    &&& outbound::same_but_context(sent, out)
}

impl Client {
    /// Input received and not used up yet.
    pub closed spec fn input(self) -> Input {
        self.reader@
    }

    /// Receiving context of the session.
    pub closed spec fn receiver(self) -> Option<OpeningContext> {
        self.receiver
    }

    /// Number of the session that the receiving context belongs to.
    pub closed spec fn session(self) -> u64 {
        self.session
    }

    /// Handshake in progress.
    pub closed spec fn phase(self) -> Phase {
        self.phase
    }

    /// Budget of each handshake.
    pub closed spec fn timeout(self) -> u64 {
        self.timeout
    }

    /// Creates a client without a session.
    pub fn new() -> (client: Client)
        ensures
            client.input() == framing::boundary(),
            client.receiver() is None,
            client.session() == outbound::UNBOUND,
            client.phase() == Phase::Idle,
            client.timeout() == DEFAULT_HANDSHAKE_TIMEOUT,
    {
        Client {
            reader: FrameReader::new(),
            receiver: None,
            session: outbound::UNBOUND,
            phase: Phase::Idle,
            timeout: DEFAULT_HANDSHAKE_TIMEOUT,
        }
    }

    /// Sets the budget for each subsequent handshake. Output and the server's reply
    /// share one deadline, which stale frames do not refresh.
    pub fn set_handshake_timeout(self, timeout: u64) -> (client: Client)
        ensures
            client.timeout() == timeout,
            client.input() == self.input(),
            client.receiver() == self.receiver(),
            client.session() == self.session(),
            client.phase() == self.phase(),
    {
        let mut client = self;
        client.timeout = timeout;
        client
    }

    /// Takes in bytes received from the server.
    pub fn feed(&mut self, bytes: &[u8])
        ensures
            final(self).input() == framing::extended(old(self).input(), bytes@),
            final(self).receiver() == old(self).receiver(),
            final(self).session() == old(self).session(),
            final(self).phase() == old(self).phase(),
            final(self).timeout() == old(self).timeout(),
    {
        self.reader.feed(bytes);
    }

    /// Number of the installed session, counting the handshakes so far, or zero
    /// without one. A fresh handshake moves it, which is how anything bound to the
    /// session above the wire tells.
    pub fn session_id(&self, outbound: &Outbound) -> (session: u64)
        ensures
            session == outbound.bound(),
    {
        outbound.session_id()
    }

    /// Handle for sending messages into the installed session. A new handshake
    /// needs a new handle; one obtained without a session cannot send.
    pub fn sender(&self, outbound: &Outbound) -> (sender: Sender)
        ensures
            sender.session() == outbound.bound(),
    {
        outbound.sender()
    }

    /// Whether the session can still be received from.
    pub fn has_receiver(&self) -> (has: bool)
        ensures
            has == (self.receiver() is Some),
    {
        self.receiver.is_some()
    }

    /// Starts a handshake with the given ephemeral keys and signing time, whatever
    /// the client was doing. The old session ends here, its senders refused from
    /// now on. Two zero bytes go out: the first terminates any interrupted
    /// message, the second signals a fresh session.
    fn start<I>(
        &mut self,
        outbound: &mut Outbound,
        hello: HelloKeys,
        timestamp: Option<i64>,
        now: u64,
    ) -> (progress: Progress<I>)
        requires
            old(outbound).output() == Output::Settled,
            now + old(self).timeout <= u64::MAX,
        ensures
            starts(*old(outbound), *final(outbound), (now + old(self).timeout) as u64, progress),
            final(self).phase == Phase::Reset(hello, timestamp, (now + old(self).timeout) as u64),
            final(self).receiver is None,
            final(self).reader == old(self).reader,
            final(self).session == old(self).session,
            final(self).timeout == old(self).timeout,
    {
        let deadline: u64 = now + self.timeout;
        self.receiver = None;
        self.phase = Phase::Reset(hello, timestamp, deadline);
        Progress::Write(outbound.send_reset(), deadline)
    }

    /// Starts a handshake with the given ephemeral keys instead of fresh ones and
    /// the ack signed at the given time, so that a transcript of it can be
    /// replayed. The handshake goes on with `handshake`.
    pub fn handshake_with_keys<V: Verifier>(
        &mut self,
        outbound: &mut Outbound,
        verifier: &V,
        hello: HelloKeys,
        timestamp: i64,
        now: u64,
    ) -> (progress: Progress<V::Info>)
        requires
            old(outbound).output() == Output::Settled,
            now + old(self).timeout() <= u64::MAX,
        ensures
            opens(
                *old(self),
                *final(self),
                *old(outbound),
                *final(outbound),
                hello,
                timestamp,
                now,
                progress,
            ),
    {
        self.start(outbound, hello, Some(timestamp), now)
    }

    /// Drives the handshake one step. Outside of one it ends the session and sends
    /// the reset. The hello follows with fresh keys, then frames are read until
    /// the server's answer arrives. The verifier receives the device attestation
    /// in the answer, and its accepted info comes with the ack.
    pub fn handshake<V: Verifier>(
        &mut self,
        outbound: &mut Outbound,
        verifier: &V,
        now: u64,
    ) -> (progress: Progress<V::Info>)
        requires
            old(outbound).output() == Output::Settled,
            !(old(self).phase() is Acked),
            now + old(self).timeout() <= u64::MAX,
        ensures
            drives(
                *old(self),
                *final(self),
                *old(outbound),
                *final(outbound),
                verifier,
                now,
                progress,
            ),
            match (old(self).phase(), progress) {
                (Phase::AwaitHello(hello, _, _), Progress::Ack(_, _, info)) => handshake::presented(
                    framing::next_item(old(self).input()),
                    hello,
                ) matches Some(attest) && verifier.informs(attest, info),
                _ => true,
            },
    {
        let phase = replace(&mut self.phase, Phase::Idle);
        match phase {
            Phase::Reset(hello, timestamp, deadline) => {
                let packet = hello.hello();
                match outbound.send_packet(packet.as_slice()) {
                    Ok(bytes) => {
                        self.phase = Phase::AwaitHello(hello, timestamp, deadline);
                        Progress::Write(bytes, deadline)
                    },
                    Err(err) => Progress::Failed(err),
                }
            },
            Phase::AwaitHello(hello, timestamp, deadline) => match check_deadline(now, deadline) {
                Ok(_) => self.await_hello(outbound, verifier, hello, timestamp, deadline),
                Err(kind) => Progress::Failed(Error::RecvFailed(kind)),
            },
            _ => self.start(outbound, HelloKeys::generate(), None, now),
        }
    }

    /// Takes the next frame while the answer to the hello is awaited.
    fn await_hello<V: Verifier>(
        &mut self,
        outbound: &mut Outbound,
        verifier: &V,
        hello: HelloKeys,
        timestamp: Option<i64>,
        deadline: u64,
    ) -> (progress: Progress<V::Info>)
        requires
            old(self).phase == Phase::Idle,
            old(outbound).output() == Output::Settled,
        ensures
            final(self).timeout == old(self).timeout,
            final(self).session == old(self).session,
            final(self).receiver == old(self).receiver,
            final(self).reader@ == framing::after_item(old(self).reader@),
            match framing::next_item(old(self).reader@) {
                None => {
                    &&& progress == Progress::<V::Info>::Read(deadline)
                    &&& final(self).phase == Phase::AwaitHello(hello, timestamp, deadline)
                    &&& *final(outbound) == *old(outbound)
                },
                Some(item) => greets(
                    verifier,
                    hello,
                    timestamp,
                    deadline,
                    framing::arrival(item),
                    *old(outbound),
                    *final(outbound),
                    progress,
                    final(self).phase,
                ),
            },
            progress matches Progress::Ack(_, _, info) ==> (handshake::presented(
                framing::next_item(old(self).reader@),
                hello,
            ) matches Some(attest) && verifier.informs(attest, info)),
    {
        match self.reader.next_packet() {
            None => {
                self.phase = Phase::AwaitHello(hello, timestamp, deadline);
                return Progress::Read(deadline);
            },
            Some(Ok(Some(packet))) => {
                if hello.answered_by(packet.as_slice()) {
                    return self.conclude(
                        outbound,
                        verifier,
                        hello,
                        timestamp,
                        deadline,
                        packet.as_slice(),
                    );
                }
            },
            Some(_) => {},
        }
        self.phase = Phase::AwaitHello(hello, timestamp, deadline);
        Progress::Again
    }

    /// Concludes the handshake with the packet sealed to its keys.
    fn conclude<V: Verifier>(
        &mut self,
        outbound: &mut Outbound,
        verifier: &V,
        hello: HelloKeys,
        timestamp: Option<i64>,
        deadline: u64,
        packet: &[u8],
    ) -> (progress: Progress<V::Info>)
        requires
            old(self).phase == Phase::Idle,
            old(outbound).output() == Output::Settled,
        ensures
            final(self).timeout == old(self).timeout,
            final(self).session == old(self).session,
            final(self).receiver == old(self).receiver,
            final(self).reader == old(self).reader,
            concludes(
                verifier,
                hello,
                timestamp,
                deadline,
                packet@,
                *old(outbound),
                *final(outbound),
                progress,
                final(self).phase,
            ),
            progress matches Progress::Ack(_, _, info) ==> (handshake::answer_read(
                packet@,
                hello,
            ) matches Some((_, attest)) && verifier.informs(attest, info)),
    {
        let concluded = handshake::conclude(hello, packet, verifier, timestamp, Answerer::Server);
        let ghost conclusion = concluded;
        let progress = self.finish(outbound, concluded, deadline);
        assert(finishes(
            conclusion,
            deadline,
            *old(outbound),
            *outbound,
            progress,
            self.phase,
        ));
        progress
    }

    /// Finishes the handshake with its conclusion.
    fn finish<I>(
        &mut self,
        outbound: &mut Outbound,
        concluded: Result<(Session, Vec<u8>, I), Error>,
        deadline: u64,
    ) -> (progress: Progress<I>)
        requires
            old(self).phase == Phase::Idle,
            old(outbound).output() == Output::Settled,
        ensures
            final(self).timeout == old(self).timeout,
            final(self).session == old(self).session,
            final(self).receiver == old(self).receiver,
            final(self).reader == old(self).reader,
            finishes(
                concluded,
                deadline,
                *old(outbound),
                *final(outbound),
                progress,
                final(self).phase,
            ),
    {
        match concluded {
            Ok((session, ack, info)) => match outbound.send_packet(ack.as_slice()) {
                Ok(bytes) => {
                    self.phase = Phase::Acked(session);
                    Progress::Ack(bytes, deadline, info)
                },
                Err(err) => Progress::Failed(err),
            },
            Err(err) => Progress::Failed(err),
        }
    }

    /// Reports the outcome of the output handed out by the handshake. A failure
    /// ends the handshake. The session starts once its ack is out, ahead of
    /// anything sealed into it.
    pub fn sent(&mut self, outbound: &mut Outbound, outcome: Result<(), ErrorKind>) -> (result:
        Result<(), Error>)
        requires
            old(outbound).side() == outbound::Side::Client,
            old(outbound).sessions() < u64::MAX,
        ensures
            settles(
                *old(self),
                *final(self),
                *old(outbound),
                *final(outbound),
                outcome,
                result,
            ),
    {
        let _ = outbound.sent(outcome);
        let phase = replace(&mut self.phase, Phase::Idle);
        match outcome {
            Err(kind) => Err(Error::SendFailed(kind)),
            Ok(_) => {
                match phase {
                    Phase::Acked(session) => {
                        let Session { sender, receiver } = session;
                        self.establish_session(outbound, sender, receiver);
                    },
                    phase => {
                        self.phase = phase;
                    },
                }
                Ok(())
            },
        }
    }

    /// Installs the contexts of a freshly established session.
    pub fn establish_session(
        &mut self,
        outbound: &mut Outbound,
        sender: SealingContext,
        receiver: OpeningContext,
    )
        requires
            old(outbound).sessions() < u64::MAX,
        ensures
            final(self).receiver() == Some(receiver),
            final(self).session() == final(outbound).bound(),
            final(self).phase() == old(self).phase(),
            final(self).input() == old(self).input(),
            final(self).timeout() == old(self).timeout(),
            final(outbound).sessions() == old(outbound).sessions() + 1,
            final(outbound).context() == Some(sender),
            final(outbound).resync() == old(outbound).resync(),
            final(outbound).side() == old(outbound).side(),
            final(outbound).output() == old(outbound).output(),
    {
        let _ = outbound.bind(sender);
        self.session = outbound.session_id();
        self.receiver = Some(receiver);
    }

    /// Ends a session or handshake in progress, as a failed read does. Both
    /// directions of a session go together.
    pub fn interrupt(&mut self, outbound: &mut Outbound)
        ensures
            interrupts(*old(self), *final(self), *old(outbound), *final(outbound)),
    {
        self.phase = Phase::Idle;
        if self.receiver.take().is_some() {
            outbound.end(self.session);
        }
    }

    /// Reads the next message received, or `None` if more input is needed. Without
    /// a receiving context it fails before taking any input. A frame that cannot
    /// be decoded or a packet that cannot be decrypted ends the session, as the
    /// server's sequence can no longer be followed. So does an empty frame, the
    /// server signaling it dropped the session on its end, and a packet that
    /// arrives after a sender ended the session.
    pub fn recv(&mut self, outbound: &mut Outbound) -> (message: Option<Result<Vec<u8>, Error>>)
        ensures
            takes(*old(self), *final(self), *old(outbound), *final(outbound), message),
    {
        let mut receiver = match self.receiver.take() {
            None => return Some(
                Err(Error::EncryptionFailed(String::from_str("no active session"))),
            ),
            Some(receiver) => receiver,
        };
        let packet = match self.reader.next_packet() {
            None => {
                self.receiver = Some(receiver);
                return None;
            },
            Some(Err(err)) => {
                outbound.end(self.session);
                return Some(Err(err));
            },
            Some(Ok(None)) => {
                outbound.end(self.session);
                return Some(Err(Error::SessionReset));
            },
            Some(Ok(Some(packet))) => packet,
        };
        // A sender may have ended the session, in which case the receiving side
        // goes down with it here
        if !outbound.bound_to(self.session) {
            return Some(Err(Error::EncryptionFailed(String::from_str("no active session"))));
        }
        match sealing::open(&mut receiver, packet.as_slice()) {
            Ok(message) => {
                self.receiver = Some(receiver);
                Some(Ok(message))
            },
            Err(err) => {
                outbound.end(self.session);
                Some(Err(err))
            },
        }
    }

    /// Exposes the framer's `next_packet`.
    pub fn next_packet_blob(&mut self) -> (packet: Option<Result<Option<Vec<u8>>, Error>>)
        ensures
            framing::reads_packet(old(self).input(), final(self).input(), packet),
            final(self).receiver() == old(self).receiver(),
            final(self).session() == old(self).session(),
            final(self).phase() == old(self).phase(),
            final(self).timeout() == old(self).timeout(),
    {
        self.reader.next_packet()
    }

    /// Exposes the framer's `next_frame_blob`, which skips oversized frames.
    pub fn next_frame_blob(&mut self) -> (frame: Option<Vec<u8>>)
        ensures
            framing::reads_frame(old(self).input(), final(self).input(), frame),
            final(self).receiver() == old(self).receiver(),
            final(self).session() == old(self).session(),
            final(self).phase() == old(self).phase(),
            final(self).timeout() == old(self).timeout(),
    {
        self.reader.next_frame_blob()
    }

    /// Exposes the framer's `send_packet`.
    pub fn send_packet_blob(&self, outbound: &mut Outbound, packet: &[u8]) -> (output: Result<
        Vec<u8>,
        Error,
    >)
        requires
            old(outbound).output() == Output::Settled,
        ensures
            outbound::hands_out_packet(*old(outbound), *final(outbound), packet@, output),
    {
        outbound.send_packet(packet)
    }

    /// Exposes the framer's `send_frame_blob`.
    pub fn send_frame_blob(&self, outbound: &mut Outbound, frame: &[u8]) -> (output: Vec<u8>)
        requires
            old(outbound).output() == Output::Settled,
        ensures
            outbound::hands_out_frame(*old(outbound), *final(outbound), frame@, output@),
    {
        outbound.send_frame_blob(frame)
    }
}

/// A handshake goes from one state of client and output to the next: by a step that is
/// driven, by the outcome of an output, by input that arrives, or by a read that fails.
pub open spec fn moves<V: Verifier>(
    before: (Client, Outbound),
    after: (Client, Outbound),
    verifier: &V,
) -> bool {
    ||| exists|now: u64, progress: Progress<V::Info>| #[trigger]
        drives(before.0, after.0, before.1, after.1, verifier, now, progress)
    ||| exists|outcome: Result<(), ErrorKind>, result: Result<(), Error>| #[trigger]
        settles(before.0, after.0, before.1, after.1, outcome, result)
    ||| {
        &&& after.0.phase() == before.0.phase() || after.0.phase() == Phase::Idle
        &&& after.0.receiver() == before.0.receiver()
        &&& after.1 == before.1
    }
}

/// The ack of a handshake went out, which is how it succeeds.
pub open spec fn succeeds(before: (Client, Outbound), after: (Client, Outbound)) -> bool {
    &&& before.0.phase() is Acked
    &&& exists|outcome: Result<(), ErrorKind>, result: Result<(), Error>| #[trigger]
        settles(before.0, after.0, before.1, after.1, outcome, result) && outcome is Ok
}

/// Client and output in the middle of a handshake: there is no session, and none was
/// bound since the handshake started.
pub open spec fn unbound(state: (Client, Outbound), sessions: u64) -> bool {
    &&& state.0.receiver() is None
    &&& state.1.context() is None
    &&& state.1.sessions() == sessions
}

/// A handshake succeeds exactly if there is a session once it is over. From its start
/// on, whether it succeeds or fails, no sender of an earlier session can send.
pub proof fn law_handshake_decides_session<V: Verifier>(
    before: Outbound,
    reset: Progress<V::Info>,
    deadline: u64,
    states: Seq<(Client, Outbound)>,
    verifier: &V,
    sender: Sender,
)
    requires
        states.len() >= 2,
        starts(before, states[0].1, deadline, reset),
        states[0].0.receiver() is None,
        before.sessions() < u64::MAX,
        sender.session() <= before.sessions(),
        forall|i: int|
            0 <= i < states.len() - 1 ==> {
                &&& !((#[trigger] states[i]).0.phase() is Idle)
                &&& moves(states[i], states[i + 1], verifier)
            },
        states.last().0.phase() is Idle,
    ensures
        succeeds(states[states.len() - 2], states.last()) <==> states.last().1.bound()
            != outbound::UNBOUND,
        forall|i: int|
            0 <= i < states.len() ==> !(#[trigger] states[i]).1.bound_is(sender.session()),
{
    assert forall|i: int| 0 <= i < states.len() - 1 implies unbound(
        #[trigger] states[i],
        states[0].1.sessions(),
    ) by {
        lemma_unbound(states, verifier, i);
    }
    let last = states.len() - 2;
    assert(unbound(states[last], states[0].1.sessions()));
    assert(moves(states[last], states[last + 1], verifier));
}

/// Until the last state of a handshake no session is bound.
proof fn lemma_unbound<V: Verifier>(states: Seq<(Client, Outbound)>, verifier: &V, at: int)
    requires
        0 <= at < states.len() - 1,
        unbound(states[0], states[0].1.sessions()),
        forall|i: int|
            0 <= i < states.len() - 1 ==> {
                &&& !((#[trigger] states[i]).0.phase() is Idle)
                &&& moves(states[i], states[i + 1], verifier)
            },
    ensures
        unbound(states[at], states[0].1.sessions()),
    decreases at,
{
    if at > 0 {
        lemma_unbound(states, verifier, at - 1);
        assert(moves(states[at - 1], states[at], verifier));
    }
}

/// A session ends in both directions at once: after a failed receive there is
/// neither a context to receive with nor, if it was the client's, a bound session
/// to send into.
pub proof fn law_session_lockstep(
    before: Client,
    after: Client,
    sent: Outbound,
    out: Outbound,
    arrival: Arrival,
    error: Error,
)
    requires
        receives(before, after, sent, out, arrival, Err(error)),
    ensures
        after.receiver() is None,
        !out.bound_is(before.session()),
{
}

/// A message received is the one that the next packet holds at the client's position in
/// the session, and everything else fails for what it is. Without a session nothing is
/// taken from the input.
pub proof fn law_receive_is_exact(
    before: Client,
    after: Client,
    sent: Outbound,
    out: Outbound,
    message: Option<Result<Vec<u8>, Error>>,
)
    requires
        takes(before, after, sent, out, message),
    ensures
        match (before.receiver(), framing::next_item(before.input())) {
            (None, _) => {
                &&& message matches Some(Err(Error::EncryptionFailed(text)))
                &&& text@ == "no active session"@
                &&& after.input() == before.input()
            },
            (Some(_), None) => message is None && after.receiver() == before.receiver(),
            (Some(_), Some(framing::Item::Oversized)) => message == Some(
                Err::<Vec<u8>, Error>(Error::FrameTooLarge((MAX_FRAME_SIZE + 1) as usize)),
            ),
            (Some(receiver), Some(framing::Item::Frame(frame))) => if frame.len() == 0 {
                message == Some(Err::<Vec<u8>, Error>(Error::SessionReset))
            } else {
                match cobs::cobs_decoded(frame) {
                    Err(err) => message == Some(
                        Err::<Vec<u8>, Error>(Error::FrameDecodingFailed(err)),
                    ),
                    Ok(packet) => {
                        let opened = sealing::message_of(
                            sealing::receiver_context(receiver),
                            sealing::receiver_sequence(receiver),
                            packet,
                        );
                        let bound = sent.context() is Some && sent.sessions() == before.session()
                            && before.session() != 0;
                        &&& bound && opened is Some ==> {
                            &&& message matches Some(Ok(bytes)) && Some(bytes@) == opened
                            &&& after.receiver() matches Some(next)
                            &&& sealing::receiver_context(next) == sealing::receiver_context(
                                receiver,
                            )
                            &&& sealing::receiver_sequence(next) == sealing::receiver_sequence(
                                receiver,
                            ) + 1
                            &&& out == sent
                        }
                        &&& !bound || opened is None ==> (message matches Some(Err(error))
                            && error is EncryptionFailed)
                    },
                }
            },
        },
        message matches Some(Err(_)) ==> after.receiver() is None && !out.bound_is(
            before.session(),
        ) || before.receiver() is None,
{
}

/// While the answer is awaited, only time and the packet sealed to the fresh keys decide.
/// The attempt fails by its deadline and not before. Any other frame is skipped and leaves
/// the attempt, its deadline too, as it was.
pub proof fn law_stale_frames_are_skipped<V: Verifier, I>(
    before: Client,
    after: Client,
    sent: Outbound,
    out: Outbound,
    verifier: &V,
    now: u64,
    progress: Progress<I>,
    hello: HelloKeys,
    timestamp: Option<i64>,
    deadline: u64,
)
    requires
        drives(before, after, sent, out, verifier, now, progress),
        before.phase() == Phase::AwaitHello(hello, timestamp, deadline),
    ensures
        now >= deadline ==> {
            &&& progress == Progress::<I>::Failed(Error::RecvFailed(ErrorKind::TimedOut))
            &&& after.input() == before.input()
            &&& after.phase() == Phase::Idle
        },
        now < deadline ==> match framing::next_item(before.input()) {
            None => progress == Progress::<I>::Read(deadline) && after.phase() == before.phase(),
            Some(framing::Item::Oversized) => progress is Again && after.phase() == before.phase(),
            Some(framing::Item::Frame(frame)) => {
                let answers = frame.len() > 0 && (cobs::cobs_decoded(frame) matches Ok(packet)
                    && envelope::cose_recipient(packet) == Some(
                    keys::xhpke_fingerprint(keys::xhpke_public(hello.crypto)),
                ));
                &&& !answers ==> {
                    &&& progress is Again
                    &&& after.phase() == before.phase()
                    &&& out == sent
                }
                &&& answers ==> progress is Ack || progress is Failed
            },
        },
{
    if let Some(framing::Item::Frame(frame)) = framing::next_item(before.input()) {
        if now < deadline && framing::arrival(framing::Item::Frame(frame)) is Packet {
            let packet = framing::arrival(framing::Item::Frame(frame))->Packet_0;
            if hello.addressed(packet) {
                assert(concludes(
                    verifier,
                    hello,
                    timestamp,
                    deadline,
                    packet,
                    sent,
                    out,
                    progress,
                    after.phase(),
                ));
            }
        }
    }
}

/// An ack goes out only for a session that a packet received in time vouches for, and is
/// the packet that the server reads, at a frame boundary or behind whatever a failed output
/// left unfinished.
pub proof fn law_ack_is_earned<V: Verifier, I>(
    before: Client,
    after: Client,
    sent: Outbound,
    out: Outbound,
    verifier: &V,
    now: u64,
    bytes: Vec<u8>,
    limit: u64,
    info: I,
    input: Input,
)
    requires
        drives(before, after, sent, out, verifier, now, Progress::Ack(bytes, limit, info)),
        sent.resync() || input == framing::boundary(),
    ensures
        before.phase() is AwaitHello,
        now < limit,
        limit == before.phase()->AwaitHello_2,
        after.phase() is Acked,
        ({
            let hello = before.phase()->AwaitHello_0;
            let session = after.phase()->Acked_0;
            let read = framing::arrival(framing::items(framing::extended(input, bytes@)).last());
            &&& framing::next_item(before.input()) matches Some(framing::Item::Frame(frame))
            &&& cobs::cobs_decoded(frame) matches Ok(packet)
            &&& read is Packet
            &&& exists|identity: VerifyingKey, signed: Seq<u8>, payload: Seq<u8>| #[trigger]
                handshake::vouches(
                    verifier,
                    packet,
                    hello,
                    identity,
                    signed,
                    payload,
                    session,
                    read->Packet_0,
                    before.phase()->AwaitHello_1,
                )
        }),
{
    if let Phase::AwaitHello(hello, timestamp, deadline) = before.phase() {
        let progress = Progress::Ack(bytes, limit, info);
        let item = framing::next_item(before.input())->0;
        let packet = framing::arrival(item)->Packet_0;
        assert(concludes(
            verifier,
            hello,
            timestamp,
            deadline,
            packet,
            sent,
            out,
            progress,
            after.phase(),
        ));
        let concluded = choose|concluded: Result<(Session, Vec<u8>, I), Error>|
            {
                &&& handshake::concludes(
                    verifier,
                    packet,
                    hello,
                    timestamp,
                    Answerer::Server,
                    concluded,
                )
                &&& #[trigger] finishes(concluded, deadline, sent, out, progress, after.phase())
            };
        let (session, ack, extracted) = concluded->Ok_0;
        handshake::law_session_is_vouched_for(
            verifier,
            packet,
            hello,
            timestamp,
            Answerer::Server,
            session,
            ack,
            extracted,
        );
        framing::law_packet_reads_back(
            input,
            sent.resync(),
            cobs::cobs_encoded(ack@),
            ack@,
        );
        let arrived = framing::arrival(framing::items(framing::extended(input, bytes@)).last());
        assert(arrived == Arrival::Packet(ack@));
        assert(after.phase() == Phase::Acked(session));
        assert(item is Frame);
        let frame = item->Frame_0;
        assert(framing::next_item(before.input()) == Some(framing::Item::Frame(frame)));
        assert(before.phase()->AwaitHello_0 == hello);
        assert(before.phase()->AwaitHello_1 == timestamp);
        assert(after.phase()->Acked_0 == session);
        assert(cobs::cobs_decoded(frame) == Ok::<Seq<u8>, darkbio_cobs::DecodeError>(packet));
        let (identity, signed, payload) = choose|
            identity: VerifyingKey,
            signed: Seq<u8>,
            payload: Seq<u8>,
        | #[trigger]
            handshake::vouches(
                verifier,
                packet,
                hello,
                identity,
                signed,
                payload,
                session,
                ack@,
                timestamp,
            );
        assert(handshake::vouches(
            verifier,
            packet,
            hello,
            identity,
            signed,
            payload,
            session,
            arrived->Packet_0,
            before.phase()->AwaitHello_1,
        ));
    }
}

/// A handshake starts by ending the session and sending a reset, under the whole of its
/// budget from here on. The hello that follows is the packet that the server reads, and
/// announces the keys of this attempt, under the same deadline.
pub proof fn law_handshake_opens<V: Verifier, I>(
    before: Client,
    after: Client,
    sent: Outbound,
    out: Outbound,
    verifier: &V,
    now: u64,
    progress: Progress<I>,
    input: Input,
)
    requires
        drives(before, after, sent, out, verifier, now, progress),
        now + before.timeout() <= u64::MAX,
        sent.resync() || input == framing::boundary(),
    ensures
        before.phase() is Idle ==> {
            &&& progress matches Progress::Write(bytes, limit)
            &&& bytes@ == seq![0u8, 0u8]
            &&& limit == now + before.timeout()
            &&& out.context() is None
            &&& after.receiver() is None
            &&& after.phase() matches Phase::Reset(_, _, deadline)
            &&& deadline == limit
        },
        before.phase() matches Phase::Reset(hello, timestamp, deadline) ==> {
            &&& progress matches Progress::Write(bytes, limit)
            &&& limit == deadline
            &&& after.phase() == Phase::AwaitHello(hello, timestamp, deadline)
            &&& framing::arrival(framing::items(framing::extended(input, bytes@)).last()) matches
                Arrival::Packet(packet)
            &&& handshake::hello_keys(packet) == Some(
                (keys::xdsa_public(hello.signer), keys::xhpke_public(hello.crypto)),
            )
        },
{
    if let Phase::Reset(hello, _, _) = before.phase() {
        framing::law_packet_reads_back(
            input,
            sent.resync(),
            cobs::cobs_encoded(hello.pair()),
            hello.pair(),
        );
    }
}

/// The session of a handshake starts when its ack is out, as the next one by number, with
/// the contexts of that handshake, and with nothing left to recover from. An output that
/// failed starts none.
pub proof fn law_session_starts(
    before: Client,
    after: Client,
    sent: Outbound,
    out: Outbound,
    outcome: Result<(), ErrorKind>,
    result: Result<(), Error>,
    session: Session,
)
    requires
        settles(before, after, sent, out, outcome, result),
        before.phase() == Phase::Acked(session),
        sent.output() == Output::Packet,
    ensures
        after.phase() == Phase::Idle,
        outcome is Ok ==> {
            &&& result is Ok
            &&& after.receiver() == Some(session.receiver)
            &&& out.context() == Some(session.sender)
            &&& out.sessions() == sent.sessions() + 1
            &&& after.session() == sent.sessions() + 1
            &&& !out.resync()
        },
        outcome matches Err(kind) ==> {
            &&& result == Err::<(), Error>(Error::SendFailed(kind))
            &&& after.receiver() == before.receiver()
            &&& out.context() == sent.context()
            &&& out.sessions() == sent.sessions()
            &&& out.resync()
        },
{
}

/// A failed read leaves neither a handshake nor a session: nothing can be received, and
/// nothing sent into the session that was received from. What was read before is kept.
pub proof fn law_failed_read_ends_session(
    before: Client,
    after: Client,
    sent: Outbound,
    out: Outbound,
)
    requires
        interrupts(before, after, sent, out),
    ensures
        after.phase() is Idle,
        after.receiver() is None,
        before.receiver() is Some ==> !out.bound_is(before.session()),
        after.input() == before.input(),
        out.sessions() == sent.sessions(),
        out.resync() == sent.resync(),
        !sent.bound_is(before.session()) ==> out.context() == sent.context(),
{
}

/// A handshake with given keys ends the session, announces just those keys and signs at the
/// time given, under the whole of its budget from here on. The server reads a reset,
/// whatever was left unfinished.
pub proof fn law_given_keys_are_used<I>(
    before: Client,
    after: Client,
    sent: Outbound,
    out: Outbound,
    hello: HelloKeys,
    timestamp: i64,
    now: u64,
    progress: Progress<I>,
    server: Input,
)
    requires
        opens(before, after, sent, out, hello, timestamp, now, progress),
        now + before.timeout() <= u64::MAX,
    ensures
        after.phase() matches Phase::Reset(keys, time, deadline) && keys == hello && time == Some(
            timestamp,
        ) && deadline == now + before.timeout(),
        after.receiver() is None,
        out.context() is None,
        progress matches Progress::Write(bytes, limit) && limit == now + before.timeout()
            && framing::arrival(framing::items(framing::extended(server, bytes@)).last())
            == Arrival::Reset,
{
    framing::law_reset_reads_back(server);
}

/// A client that sets no budget has ten seconds for a handshake.
pub proof fn law_default_handshake_budget(client: Client)
    requires
        call_ensures(Client::new, (), client),
    ensures
        client.timeout() == 10_000_000_000,
        client.receiver() is None,
        client.phase() is Idle,
{
}

/// The client's session is the one that its output is bound to, and its sender sends into
/// that.
pub proof fn law_session_is_numbered(
    client: Client,
    outbound: Outbound,
    id: u64,
    sender: Sender,
    has: bool,
)
    requires
        call_ensures(Client::session_id, (&client, &outbound), id),
        call_ensures(Client::sender, (&client, &outbound), sender),
        call_ensures(Client::has_receiver, (&client,), has),
    ensures
        outbound.context() is Some ==> id == outbound.sessions(),
        outbound.context() is None ==> id == 0,
        sender.session() == id,
        has <==> client.receiver() is Some,
{
}

/// Receiving takes one frame at a time, leaving none out and taking none twice, and takes
/// none without a session.
pub proof fn law_frames_are_taken_in_order(
    before: Client,
    after: Client,
    sent: Outbound,
    out: Outbound,
    message: Option<Result<Vec<u8>, Error>>,
)
    requires
        takes(before, after, sent, out, message),
    ensures
        before.receiver() is None ==> after.input() == before.input(),
        before.receiver() is Some && message is Some ==> {
            &&& framing::items(before.input()).len() > 0
            &&& framing::items(after.input()) == framing::items(before.input()).skip(1)
        },
        message is None <==> before.receiver() is Some && framing::items(before.input()).len() == 0,
        after.session() == before.session(),
        after.timeout() == before.timeout(),
        after.phase() == before.phase(),
{
    framing::lemma_item_consumes(before.input());
    if let Some(item) = framing::next_item(before.input()) {
        let rest = framing::items(framing::after_item(before.input()));
        assert((seq![item] + rest).skip(1) =~= rest);
    }
}

/// The budget set is the budget of the handshakes that follow, and setting it touches
/// nothing else.
pub proof fn law_budget_is_set(client: Client, timeout: u64, set: Client)
    requires
        call_ensures(Client::set_handshake_timeout, (client, timeout), set),
    ensures
        set.timeout() == timeout,
        set.input() == client.input(),
        set.receiver() == client.receiver(),
        set.session() == client.session(),
        set.phase() == client.phase(),
{
}

} // verus!
