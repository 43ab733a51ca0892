//! Outgoing half of a transport: the frame writer and the session bound to it.
//! Handshakes and messages pass through the same writer, and only the bound
//! session may send. Ending a session or binding another takes effect before the
//! next frame, so nothing of an old session can follow onto the stream.

use darkbio_crypto::xhpke::{Receiver as OpeningContext, Sender as SealingContext};
use vstd::prelude::*;

use super::cobs;
pub use super::emitter::Side;
use super::framing;
use super::framing::FrameWriter;
use super::io::ErrorKind;
use super::sealing;
pub use super::sender::Sender;
use super::{Error, MAX_FRAME_SIZE, MAX_MESSAGE_SIZE};

verus! {

/// Number of no session.
pub const UNBOUND: u64 = 0;

/// Output handed out and not reported as written or failed yet.
#[derive(Clone, Copy, Debug, PartialEq, Eq, Structural)]
pub enum Output {
    /// Nothing is outstanding.
    Settled,
    /// A reset, or the empty frame telling the client that it has no session.
    Signal,
    /// A handshake packet or a raw frame.
    Packet,
    /// A message of the bound session.
    Message,
}

/// Refusal of a message, along with the signal to be written to the client if
/// the refusal ended the session.
#[derive(Debug)]
pub struct Refusal {
    pub error: Error,
    pub signal: Option<Vec<u8>>,
}

/// Whether an error says that the session of a send is over.
pub open spec fn session_ended(error: Error) -> bool {
    error matches Error::EncryptionFailed(reason) && reason@ == "session ended"@
}

/// Error that says so.
pub(crate) fn ended_error() -> (error: Error)
    ensures
        session_ended(error),
{
    Error::EncryptionFailed(String::from_str("session ended"))
}

/// Frame writer and the session bound to it.
pub struct Outbound {
    writer: FrameWriter,  // Reused across handshakes, retaining framing recovery state
    context: Option<SealingContext>,  // Sending context of the bound session
    sessions: u64,  // Number of sessions bound so far, the bound one's number
    side: Side,  // Whether failed output needs an empty frame notification
    output: Output,  // Output whose outcome is awaited
}

/// What a send does to the outgoing half and hands out. The sender's session has
/// to be bound. An oversized message is refused without advancing encryption or
/// ending the session. A sequence that has run out ends it.
pub open spec fn outbound_sends(
    before: Outbound,
    after: Outbound,
    session: u64,
    message: Seq<u8>,
    sent: Result<Vec<u8>, Refusal>,
) -> bool {
    &&& after.sessions() == before.sessions()
    &&& after.side() == before.side()
    &&& if !before.bound_is(session) {
        &&& sent matches Err(refusal)
        &&& session_ended(refusal.error)
        &&& refusal.signal is None
        &&& after == before
    } else {
        match sent {
            Ok(bytes) => {
                &&& message.len() <= MAX_MESSAGE_SIZE
                &&& after.bound() == before.bound()
                &&& after.output() == Output::Message
                &&& after.resync()
                &&& before.context() matches Some(sealer)
                &&& after.context() matches Some(advanced)
                &&& sealing::sender_context(advanced) == sealing::sender_context(sealer)
                &&& sealing::sender_sequence(sealer) <= u64::MAX
                &&& sealing::sender_sequence(advanced) == sealing::sender_sequence(sealer) + 1
                &&& before.next_packet(message).len() == message.len() + sealing::OVERHEAD
                &&& bytes@ == framing::framed(
                    before.resync(),
                    cobs::cobs_encoded(before.next_packet(message)),
                )
                &&& cobs::carries(
                    cobs::cobs_encoded(before.next_packet(message)),
                    before.next_packet(message),
                )
            },
            Err(refusal) => if message.len() > MAX_MESSAGE_SIZE {
                &&& refusal.error == Error::PacketTooLarge(message.len() as usize)
                &&& refusal.signal is None
                &&& after == before
            } else {
                &&& before.context() matches Some(sealer)
                &&& sealing::sender_sequence(sealer) > u64::MAX
                &&& refusal.error is EncryptionFailed
                &&& after.bound() == UNBOUND
                &&& notified(before, after, refusal.signal)
            },
        }
    }
}

/// The server tells the client that its session is gone. The client needs no
/// such frame, as it resets the stream when it connects again.
pub open spec fn notified(before: Outbound, after: Outbound, signal: Option<Vec<u8>>) -> bool {
    if before.side() == Side::Server {
        &&& signal matches Some(bytes)
        &&& bytes@ == framing::framed(before.resync(), Seq::empty())
        &&& after.output() == Output::Signal
        &&& after.resync()
    } else {
        &&& signal is None
        &&& after.output() == Output::Settled
        &&& after.resync() == before.resync()
    }
}

/// Handing out a frame outside of a session, with the session bound or retired.
pub open spec fn outbound_writes(
    before: Outbound,
    after: Outbound,
    output: Output,
    retires: bool,
) -> bool {
    &&& after.sessions() == before.sessions()
    &&& after.side() == before.side()
    &&& after.output() == output
    &&& after.resync()
    &&& after.context() == (if retires {
        None
    } else {
        before.context()
    })
}

/// A packet is handed out as one frame, or refused if its frame would exceed the
/// size limit.
pub open spec fn hands_out_packet(
    before: Outbound,
    after: Outbound,
    packet: Seq<u8>,
    output: Result<Vec<u8>, Error>,
) -> bool {
    match output {
        Ok(bytes) => {
            &&& cobs::encoded_bound(packet.len() as int) <= MAX_FRAME_SIZE
            &&& bytes@ == framing::framed(before.resync(), cobs::cobs_encoded(packet))
            &&& cobs::carries(cobs::cobs_encoded(packet), packet)
            &&& outbound_writes(before, after, Output::Packet, false)
        },
        Err(error) => {
            &&& cobs::encoded_bound(packet.len() as int) > MAX_FRAME_SIZE
            &&& error == Error::FrameTooLarge(cobs::capped_bound(packet.len() as int))
            &&& after == before
        },
    }
}

/// A frame body is handed out as it is.
pub open spec fn hands_out_frame(
    before: Outbound,
    after: Outbound,
    frame: Seq<u8>,
    output: Seq<u8>,
) -> bool {
    &&& output == framing::framed(before.resync(), frame)
    &&& outbound_writes(before, after, Output::Packet, false)
}

/// Binding a session and issuing its sender, under the next number.
pub open spec fn binds(
    before: Outbound,
    after: Outbound,
    context: SealingContext,
    sender: Sender,
) -> bool {
    &&& after.sessions() == before.sessions() + 1
    &&& after.context() == Some(context)
    &&& sender.session() == after.sessions()
    &&& after.resync() == before.resync()
    &&& after.side() == before.side()
    &&& after.output() == before.output()
}

/// Ending a session on behalf of its owner. One that is not the bound one is left as it
/// is.
pub open spec fn disconnects(
    before: Outbound,
    after: Outbound,
    session: u64,
    signal: Option<Vec<u8>>,
) -> bool {
    if before.bound_is(session) {
        &&& after.context() is None
        &&& after.sessions() == before.sessions()
        &&& after.side() == before.side()
        &&& notified(before, after, signal)
    } else {
        signal is None && after == before
    }
}

/// Everything but the sending context stays.
pub open spec fn same_but_context(before: Outbound, after: Outbound) -> bool {
    &&& after.sessions() == before.sessions()
    &&& after.resync() == before.resync()
    &&& after.side() == before.side()
    &&& after.output() == before.output()
}

/// What the outcome of an output means. Only a complete frame keeps the session
/// of a message. After a failure the server tells the client, unless time ran
/// out, as the signal shares the failed frame's budget.
pub open spec fn outbound_settles(
    before: Outbound,
    after: Outbound,
    outcome: Result<(), ErrorKind>,
    signal: Option<Vec<u8>>,
) -> bool {
    &&& after.sessions() == before.sessions()
    &&& after.side() == before.side()
    &&& match (before.output(), outcome) {
        (Output::Settled, _) => signal is None && after == before,
        (_, Ok(_)) | (Output::Signal, _) => {
            &&& signal is None
            &&& after.context() == before.context()
            &&& after.output() == Output::Settled
            &&& after.resync() == outcome is Err
        },
        (output, Err(kind)) => {
            &&& after.context() == (if output == Output::Message {
                None
            } else {
                before.context()
            })
            &&& after.resync()
            &&& if before.side() == Side::Server && kind != ErrorKind::TimedOut {
                &&& signal matches Some(bytes)
                &&& bytes@ == framing::framed(true, Seq::empty())
                &&& after.output() == Output::Signal
            } else {
                &&& signal is None
                &&& after.output() == Output::Settled
            }
        },
    }
}

impl Outbound {
    /// Whether the next output starts with a delimiter, the last one having failed.
    pub closed spec fn resync(self) -> bool {
        self.writer.resync
    }

    /// Sending context of the bound session.
    pub closed spec fn context(self) -> Option<SealingContext> {
        self.context
    }

    /// Number of sessions bound so far.
    pub closed spec fn sessions(self) -> u64 {
        self.sessions
    }

    /// Number of the bound session, or `UNBOUND`.
    pub open spec fn bound(self) -> u64 {
        if self.context() is Some {
            self.sessions()
        } else {
            UNBOUND
        }
    }

    /// Whether a session is the bound one.
    pub open spec fn bound_is(self, session: u64) -> bool {
        self.bound() != UNBOUND && self.bound() == session
    }

    /// Side of the wire.
    pub closed spec fn side(self) -> Side {
        self.side
    }

    /// Output whose outcome is awaited.
    pub closed spec fn output(self) -> Output {
        self.output
    }

    /// Packet that the next message makes.
    pub open spec fn next_packet(self, message: Seq<u8>) -> Seq<u8> {
        match self.context() {
            Some(context) => sealing::packet_of(
                sealing::sender_context(context),
                sealing::sender_sequence(context),
                message,
            ),
            None => Seq::empty(),
        }
    }

    /// Creates an unbound outgoing half.
    pub fn new(side: Side) -> (outbound: Outbound)
        ensures
            !outbound.resync(),
            outbound.context() is None,
            outbound.sessions() == 0,
            outbound.side() == side,
            outbound.output() == Output::Settled,
    {
        Outbound {
            writer: FrameWriter::new(),
            context: None,
            sessions: 0,
            side,
            output: Output::Settled,
        }
    }

    /// Binds a session and issues its sender. Previous senders are invalid from
    /// here on.
    pub fn bind(&mut self, context: SealingContext) -> (sender: Sender)
        requires
            old(self).sessions() < u64::MAX,
        ensures
            binds(*old(self), *final(self), context, sender),
    {
        self.context = Some(context);
        self.sessions = self.sessions + 1;
        Sender::new(self.sessions)
    }

    /// Whether there is a number left for another session.
    pub fn can_bind(&self) -> (can: bool)
        ensures
            can == (self.sessions() < u64::MAX),
    {
        self.sessions < u64::MAX
    }

    /// Retires the bound session. Its senders are refused from here on.
    pub fn unbind(&mut self)
        ensures
            final(self).context() is None,
            same_but_context(*old(self), *final(self)),
    {
        self.context = None;
    }

    /// Number of the bound session, or zero without one.
    pub fn session_id(&self) -> (session: u64)
        ensures
            session == self.bound(),
    {
        match self.context {
            Some(_) => self.sessions,
            None => UNBOUND,
        }
    }

    /// Sender for the bound session. One obtained without a session cannot send.
    pub fn sender(&self) -> (sender: Sender)
        ensures
            sender.session() == self.bound(),
    {
        Sender::new(self.session_id())
    }

    /// Whether a session is the bound one.
    pub fn bound_to(&self, session: u64) -> (bound: bool)
        ensures
            bound == self.bound_is(session),
    {
        let bound: u64 = self.session_id();
        bound != UNBOUND && bound == session
    }

    /// Retires a session if it is still the bound one.
    pub fn end(&mut self, session: u64)
        ensures
            final(self).context() == (if old(self).bound_is(session) {
                None
            } else {
                old(self).context()
            }),
            same_but_context(*old(self), *final(self)),
    {
        if self.bound_to(session) {
            self.context = None;
        }
    }

    /// Accepts a received message if its session is still the bound one. A send
    /// failure in the meantime takes the message down with the session.
    pub fn finish_receive(&self, session: u64, opened: Result<Vec<u8>, Error>) -> (message: Result<
        Vec<u8>,
        Error,
    >)
        ensures
            match opened {
                Err(error) => message == Err::<Vec<u8>, Error>(error),
                Ok(bytes) => if self.bound_is(session) {
                    message == Ok::<Vec<u8>, Error>(bytes)
                } else {
                    message matches Err(error) && session_ended(error)
                },
            },
    {
        match opened {
            Err(error) => Err(error),
            Ok(bytes) => if self.bound_to(session) {
                Ok(bytes)
            } else {
                Err(ended_error())
            },
        }
    }

    /// Encrypts a message for a session and hands out its frame. The session has
    /// to be the bound one.
    pub fn send(&mut self, session: u64, message: &[u8]) -> (sent: Result<Vec<u8>, Refusal>)
        requires
            old(self).output() == Output::Settled,
        ensures
            outbound_sends(*old(self), *final(self), session, message@, sent),
    {
        if !self.bound_to(session) {
            return Err(Refusal { error: ended_error(), signal: None });
        }
        let mut context = match self.context.take() {
            Some(context) => context,
            None => return Err(Refusal { error: ended_error(), signal: None }),
        };
        match sealing::seal(&mut context, message) {
            Ok(packet) => {
                proof {
                    super::lemma_max_message_size(message@.len() as int);
                }
                self.context = Some(context);
                match self.writer.send_packet(packet.as_slice()) {
                    Ok(bytes) => {
                        self.output = Output::Message;
                        Ok(bytes)
                    },
                    Err(error) => Err(Refusal { error, signal: None }),
                }
            },
            Err(Error::PacketTooLarge(size)) => {
                self.context = Some(context);
                Err(Refusal { error: Error::PacketTooLarge(size), signal: None })
            },
            Err(error) => {
                let signal = self.notify_session_ended();
                Err(Refusal { error, signal })
            },
        }
    }

    /// Hands out the empty frame that tells the client its session ended, on the
    /// server's side.
    fn notify_session_ended(&mut self) -> (signal: Option<Vec<u8>>)
        requires
            old(self).output == Output::Settled,
        ensures
            final(self).context == old(self).context,
            final(self).sessions == old(self).sessions,
            final(self).side == old(self).side,
            notified(*old(self), *final(self), signal),
    {
        match self.side {
            Side::Server => {
                self.output = Output::Signal;
                Some(self.writer.send_dropped())
            },
            Side::Client => None,
        }
    }

    /// Reports the outcome of writing and flushing the output handed out last. A
    /// failed message ends its session. A failed message or handshake packet hands
    /// out a notification on the server's side, unless time ran out, as it shares
    /// the failed frame's budget.
    pub fn sent(&mut self, outcome: Result<(), ErrorKind>) -> (signal: Option<Vec<u8>>)
        ensures
            outbound_settles(*old(self), *final(self), outcome, signal),
    {
        let output = self.output;
        if output == Output::Settled {
            return None;
        }
        self.writer.complete(outcome.is_ok());
        self.output = Output::Settled;
        match outcome {
            Ok(_) => None,
            Err(kind) => {
                if output == Output::Signal {
                    return None;
                }
                if output == Output::Message {
                    self.context = None;
                }
                if kind == ErrorKind::TimedOut {
                    return None;
                }
                self.notify_session_ended()
            },
        }
    }

    /// Whether the outcome of a handshake packet is awaited.
    pub fn awaits_packet(&self) -> (awaits: bool)
        ensures
            awaits == (self.output() == Output::Packet),
    {
        self.output == Output::Packet
    }

    /// Retires the session and hands out the client's reset as one step. No old
    /// frame or notification can follow it onto the stream.
    pub fn send_reset(&mut self) -> (output: Vec<u8>)
        requires
            old(self).output() == Output::Settled,
        ensures
            output@ == seq![0u8, 0u8],
            outbound_writes(*old(self), *final(self), Output::Signal, true),
    {
        self.context = None;
        self.output = Output::Signal;
        self.writer.send_reset()
    }

    /// Retires the session and tells the client that the server has none.
    pub fn send_dropped(&mut self) -> (output: Vec<u8>)
        requires
            old(self).output() == Output::Settled,
        ensures
            output@ == framing::framed(old(self).resync(), Seq::empty()),
            outbound_writes(*old(self), *final(self), Output::Signal, true),
    {
        self.context = None;
        self.output = Output::Signal;
        self.writer.send_dropped()
    }

    /// Ends a session on behalf of its owner. On the server's side the client is
    /// told. Nothing happens if the session ended or was replaced already.
    pub fn disconnect(&mut self, session: u64) -> (signal: Option<Vec<u8>>)
        requires
            old(self).output() == Output::Settled,
        ensures
            disconnects(*old(self), *final(self), session, signal),
    {
        if !self.bound_to(session) {
            return None;
        }
        self.context = None;
        self.notify_session_ended()
    }

    /// Hands out a handshake packet. The owner retires its old session before
    /// starting the handshake.
    pub fn send_packet(&mut self, packet: &[u8]) -> (output: Result<Vec<u8>, Error>)
        requires
            old(self).output() == Output::Settled,
        ensures
            hands_out_packet(*old(self), *final(self), packet@, output),
    {
        let output = self.writer.send_packet(packet);
        if output.is_ok() {
            self.output = Output::Packet;
        }
        output
    }

    /// Hands out a frame body as it is.
    pub fn send_frame_blob(&mut self, frame: &[u8]) -> (output: Vec<u8>)
        requires
            old(self).output() == Output::Settled,
        ensures
            hands_out_frame(*old(self), *final(self), frame@, output@),
    {
        self.output = Output::Packet;
        self.writer.send_frame_blob(frame)
    }
}

/// A sender belongs permanently to the session that issued it. Once the session
/// ended or another was bound, every send through it is refused and changes
/// nothing.
pub proof fn law_sender_is_bound(
    before: Outbound,
    after: Outbound,
    sender: Sender,
    message: Seq<u8>,
    sent: Result<Vec<u8>, Refusal>,
)
    requires
        outbound_sends(before, after, sender.session(), message, sent),
        !before.bound_is(sender.session()),
    ensures
        sent matches Err(refusal) && session_ended(refusal.error),
        after == before,
{
}

/// A failed output leaves no session that a message was lost from, and the next
/// output starts with a delimiter.
pub proof fn law_failed_output_ends_session(
    before: Outbound,
    after: Outbound,
    kind: ErrorKind,
    signal: Option<Vec<u8>>,
)
    requires
        before.output() == Output::Message,
        outbound_settles(before, after, Err(kind), signal),
    ensures
        after.bound() == UNBOUND,
        after.resync(),
        signal is Some <==> before.side() == Side::Server && kind != ErrorKind::TimedOut,
{
}

/// A send through a handle of the bound session succeeds whenever the message is within
/// the limit and the sequence has a number left for it. Only a message above the limit is
/// refused for its size, which leaves everything as it was.
pub proof fn law_send_succeeds(
    before: Outbound,
    after: Outbound,
    session: u64,
    message: Seq<u8>,
    sent: Result<Vec<u8>, Refusal>,
)
    requires
        outbound_sends(before, after, session, message, sent),
    ensures
        before.context() matches Some(sealer) && before.sessions() == session && session != UNBOUND
            && message.len() <= MAX_MESSAGE_SIZE && sealing::sender_sequence(sealer) <= u64::MAX
            ==> sent is Ok,
        sent matches Err(refusal) && refusal.error is PacketTooLarge ==> {
            &&& message.len() > MAX_MESSAGE_SIZE
            &&& after == before
        },
        before.context() is Some && before.sessions() == session && session != UNBOUND
            && message.len() > MAX_MESSAGE_SIZE ==> (sent matches Err(refusal) && refusal.error
            == Error::PacketTooLarge(message.len() as usize) && refusal.signal is None),
        sent is Ok ==> before.context() is Some && before.sessions() == session,
{
}

/// The message sent is the message that the peer opens, whole and unchanged. What a send
/// hands out is read as one packet, at a frame boundary or behind whatever a failed output
/// left unfinished, and that packet opens to the message if the peer stands at the same
/// position of the session. Both then stand at the next one.
pub proof fn law_message_arrives(
    before: Outbound,
    after: Outbound,
    session: u64,
    message: Seq<u8>,
    bytes: Vec<u8>,
    input: framing::Input,
    receiver: OpeningContext,
    received: OpeningContext,
    opened: Result<Vec<u8>, Error>,
)
    requires
        outbound_sends(before, after, session, message, Ok(bytes)),
        before.context() matches Some(sealer) && sealing::in_step(sealer, receiver),
        before.resync() || input == framing::boundary(),
        framing::arrival(framing::items(framing::extended(input, bytes@)).last()) matches
            framing::Arrival::Packet(packet) ==> sealing::opened_by(
            receiver,
            received,
            packet,
            opened,
        ),
    ensures
        framing::items(framing::extended(input, bytes@)).len() >= 1,
        framing::arrival(framing::items(framing::extended(input, bytes@)).last()) is Packet,
        opened matches Ok(plain) && plain@ == message,
        after.context() matches Some(advanced) && sealing::in_step(advanced, received),
        framing::drained(framing::extended(input, bytes@)) == framing::boundary(),
{
    let sealed = before.next_packet(message);
    framing::law_packet_reads_back(input, before.resync(), cobs::cobs_encoded(sealed), sealed);
}

/// The signal that tells a client of its ended session is read as a reset, at a frame
/// boundary or behind whatever a failed output left unfinished. The server alone gives
/// one.
pub proof fn law_notification_arrives(
    before: Outbound,
    after: Outbound,
    signal: Option<Vec<u8>>,
    input: framing::Input,
)
    requires
        notified(before, after, signal),
        before.resync() || input == framing::boundary(),
    ensures
        signal is Some <==> before.side() == Side::Server,
        signal matches Some(bytes) ==> {
            let items = framing::items(framing::extended(input, bytes@));
            &&& items.len() >= 1
            &&& framing::arrival(items.last()) == framing::Arrival::Reset
            &&& framing::drained(framing::extended(input, bytes@)) == framing::boundary()
        },
{
    let empty = Seq::<u8>::empty();
    if before.resync() {
        framing::law_resync(input, empty);
    } else {
        framing::law_frame_reads_back(empty);
    }
}

/// A packet is handed out exactly if its encoding is sure to fit a frame, and is then the
/// packet that the peer reads, at a frame boundary or behind whatever a failed output left
/// unfinished. A refused one leaves everything as it was.
pub proof fn law_packet_arrives(
    before: Outbound,
    after: Outbound,
    packet: Seq<u8>,
    output: Result<Vec<u8>, Error>,
    input: framing::Input,
)
    requires
        hands_out_packet(before, after, packet, output),
        before.resync() || input == framing::boundary(),
    ensures
        output is Ok <==> packet.len() + (packet.len() + 253) / 254 + 1 <= 2_097_152,
        output matches Ok(bytes) ==> {
            let items = framing::items(framing::extended(input, bytes@));
            &&& items.len() >= 1
            &&& framing::arrival(items.last()) == framing::Arrival::Packet(packet)
            &&& framing::drained(framing::extended(input, bytes@)) == framing::boundary()
            &&& after.context() == before.context()
        },
        output is Err ==> after == before,
{
    if output is Ok {
        framing::law_packet_reads_back(
            input,
            before.resync(),
            cobs::cobs_encoded(packet),
            packet,
        );
    }
}

/// Whatever is reported of an output, no session begins by it, and only a failed message
/// ends one. The next output starts with a delimiter exactly if this one failed, and
/// nothing is outstanding but the signal handed out.
pub proof fn law_outcome_settles(
    before: Outbound,
    after: Outbound,
    outcome: Result<(), ErrorKind>,
    signal: Option<Vec<u8>>,
)
    requires
        outbound_settles(before, after, outcome, signal),
    ensures
        after.sessions() == before.sessions(),
        after.side() == before.side(),
        after.context() is None || after.context() == before.context(),
        before.context() is Some && after.context() is None <==> {
            &&& before.context() is Some
            &&& before.output() == Output::Message
            &&& outcome is Err
        },
        before.output() != Output::Settled ==> after.resync() == outcome is Err,
        signal is Some <==> {
            &&& before.output() == Output::Message || before.output() == Output::Packet
            &&& before.side() == Side::Server
            &&& outcome matches Err(kind)
            &&& kind != ErrorKind::TimedOut
        },
        signal matches Some(bytes) ==> bytes@ == seq![0u8, 0u8],
        after.output() != Output::Settled ==> signal is Some,
{
    if let Some(bytes) = signal {
        assert(bytes@ =~= seq![0u8, 0u8]);
    }
}

/// A disconnect ends the session it is for and no other. The server tells the client, which
/// reads a reset, whatever a failed output left unfinished.
pub proof fn law_disconnect_is_bound(
    before: Outbound,
    after: Outbound,
    session: u64,
    signal: Option<Vec<u8>>,
    input: framing::Input,
)
    requires
        disconnects(before, after, session, signal),
        before.resync() || input == framing::boundary(),
    ensures
        !after.bound_is(session),
        after.sessions() == before.sessions(),
        before.context() is Some && before.sessions() != session ==> after.context()
            == before.context(),
        signal is Some <==> before.context() is Some && before.sessions() == session && session
            != UNBOUND && before.side() == Side::Server,
        signal matches Some(bytes) ==> framing::arrival(
            framing::items(framing::extended(input, bytes@)).last(),
        ) == framing::Arrival::Reset,
{
    if before.bound_is(session) {
        law_notification_arrives(before, after, signal, input);
    }
}

/// A message that was opened is handed on as it is while its session is the bound one, and
/// is lost with the session otherwise. What did not open stays the failure it was.
pub proof fn law_receipt_needs_session(
    outbound: Outbound,
    session: u64,
    opened: Result<Vec<u8>, Error>,
    message: Result<Vec<u8>, Error>,
)
    requires
        call_ensures(Outbound::finish_receive, (&outbound, session, opened), message),
    ensures
        message is Ok <==> opened is Ok && outbound.context() is Some && outbound.sessions()
            == session && session != UNBOUND,
        message is Ok ==> message == opened,
        opened is Err ==> message == opened,
        opened is Ok && message is Err ==> (message matches Err(error) && error is EncryptionFailed),
{
}

/// A session bound can be sent into through its own sender and through no earlier one, with
/// the context given. What is to be recovered from and what is outstanding stay.
pub proof fn law_binding_outdates_senders(
    before: Outbound,
    after: Outbound,
    context: SealingContext,
    sender: Sender,
    earlier: Sender,
)
    requires
        binds(before, after, context, sender),
        earlier.session() <= before.sessions(),
    ensures
        after.bound_is(sender.session()),
        !after.bound_is(earlier.session()),
        sender.session() != earlier.session(),
        after.context() == Some(context),
        after.resync() == before.resync(),
        after.output() == before.output(),
{
}

/// The session told is the one that can be sent into: its number is that of the sessions
/// bound so far, or zero without one, and a sender handed out belongs to it.
pub proof fn law_session_is_numbered(
    outbound: Outbound,
    id: u64,
    sender: Sender,
    session: u64,
    bound: bool,
)
    requires
        call_ensures(Outbound::session_id, (&outbound,), id),
        call_ensures(Outbound::sender, (&outbound,), sender),
        call_ensures(Outbound::bound_to, (&outbound, session), bound),
    ensures
        outbound.context() is Some ==> id == outbound.sessions(),
        outbound.context() is None ==> id == 0 && !bound,
        sender.session() == id,
        bound <==> session != 0 && session == id,
{
}

/// A frame handed out is the frame that the peer reads, at a frame boundary or behind
/// whatever a failed output left unfinished. The session is left alone.
pub proof fn law_frame_arrives(
    before: Outbound,
    after: Outbound,
    frame: Seq<u8>,
    output: Seq<u8>,
    input: framing::Input,
)
    requires
        hands_out_frame(before, after, frame, output),
        cobs::zero_free(frame),
        frame.len() <= MAX_FRAME_SIZE,
        before.resync() || input == framing::boundary(),
    ensures
        framing::items(framing::extended(input, output)).len() >= 1,
        framing::items(framing::extended(input, output)).last() == framing::Item::Frame(frame),
        framing::drained(framing::extended(input, output)) == framing::boundary(),
        after.context() == before.context(),
        after.sessions() == before.sessions(),
{
    if before.resync() {
        framing::law_resync(input, frame);
    } else {
        framing::law_frame_reads_back(frame);
    }
}

} // verus!
