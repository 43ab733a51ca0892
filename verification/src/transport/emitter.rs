//! Funnel of a session's sends. Its owner and any number of emitters, the
//! handles other threads send through, all send into the one funnel, which
//! seals and writes their messages onto the wire in order. An emitter is bound
//! to the session it was made in.

use darkbio_crypto::xhpke::{Receiver as OpeningContext, Sender as SealingContext};
use vstd::prelude::*;

use super::cobs;
use super::framing;
use super::framing::FrameWriter;
use super::sealing;
use super::{Error, MAX_FRAME_SIZE, MAX_MESSAGE_SIZE};

verus! {

/// Session number of a funnel without a session, none established yet or the
/// last one ended.
pub const NONE: u64 = 0;

/// Side of the wire a funnel sends for. The server lives across sessions,
/// clients come and go on it, so after a failed send it tells the client with
/// an empty frame that its session is gone and a handshake is due. A client
/// is made per connection and recovers by starting that handshake itself, so
/// it never has to tell the server anything.
#[derive(Clone, Copy, Debug, PartialEq, Eq, Structural)]
pub enum Side {
    Client,
    Server,
}

impl Side {
    /// Whether a failed send is followed by the frame telling the peer its
    /// session is gone.
    pub fn announces_drops(self) -> (announces: bool)
        ensures
            announces == (self == Side::Server),
    {
        self == Side::Server
    }

    /// Name of the messages the side sends, for the traces.
    pub fn label(self) -> (label: &'static str)
        ensures
            label@ == (match self {
                Side::Client => "host-to-ark"@,
                Side::Server => "ark-to-host"@,
            }),
    {
        match self {
            Side::Client => "host-to-ark",
            Side::Server => "ark-to-host",
        }
    }
}

/// Output handed out by a funnel and not reported as written or failed yet.
#[derive(Clone, Copy, Debug, PartialEq, Eq, Structural)]
pub enum Output {
    /// Nothing is outstanding.
    Settled,
    /// A frame of the owner's own, a handshake packet or a signal.
    Own,
    /// A message of the live session.
    Message,
}

/// Refusal of a message, along with the signal to be written to the peer if the
/// refusal ended the session and the side announces that.
#[derive(Debug)]
pub struct Refusal {
    pub error: Error,
    pub signal: Option<Vec<u8>>,
}

/// Refusal to send into a session, given the live one's number, if there is one.
pub open spec fn session_refusal(live: u64, session: u64) -> Option<Seq<char>> {
    if live == NONE {
        Some("no active session"@)
    } else if live == session {
        None
    } else {
        Some("session ended"@)
    }
}

/// Checks that a session is the live one, a message of any other refused as the
/// peer would not follow its sequence.
pub fn check_session(live: u64, session: u64) -> (checked: Result<(), Error>)
    ensures
        match session_refusal(live, session) {
            None => checked is Ok,
            Some(reason) => checked matches Err(Error::EncryptionFailed(text)) && text@ == reason,
        },
{
    if live == NONE {
        Err(Error::EncryptionFailed(String::from_str("no active session")))
    } else if live == session {
        Ok(())
    } else {
        Err(Error::EncryptionFailed(String::from_str("session ended")))
    }
}

/// Handle for sending messages into a session. It is bound to the session it was
/// made in and refused once that ended, whether by a failure, a new handshake or
/// the owner going, so a message meant for one peer never reaches the next. A new
/// session needs a new handle from the owner.
#[derive(Clone, Copy, Debug, PartialEq, Eq, Structural)]
pub struct Emitter {
    session: u64,  // Number of the session the handle sends into
}

impl Emitter {
    /// Number of the session the handle was made in.
    pub closed spec fn session(self) -> u64 {
        self.session
    }

    /// Number of the session the handle was created for, even after it ends.
    /// Zero identifies a handle obtained before the first handshake. Numbers are
    /// local to one transport owner, not globally unique.
    pub fn session_id(&self) -> (session: u64)
        ensures
            session == self.session(),
    {
        self.session
    }

    /// Seals the message and hands out its frame, see `Funnel::send`. The handle
    /// reaches its funnel only while the owner lives.
    pub fn send_message(&self, funnel: &mut Funnel, message: &[u8]) -> (sent: Result<
        Vec<u8>,
        Refusal,
    >)
        requires
            old(funnel).output() == Output::Settled,
        ensures
            funnel_sends(*old(funnel), *final(funnel), self.session(), message@, sent),
            self.session() != NONE && old(funnel).live() == self.session() && message@.len()
                <= MAX_MESSAGE_SIZE && sealing::sender_sequence(old(funnel).sender()->0)
                <= u64::MAX ==> sent is Ok,
            sent matches Err(refusal) && refusal.error is PacketTooLarge ==> message@.len()
                > MAX_MESSAGE_SIZE,
    {
        funnel.send(self.session, message)
    }
}

/// Sending side of a session. It holds the outbound encryption context and the
/// frame writer, and every send passes through it, so all senders share one
/// sequence and one stream.
///
/// Sessions are numbered as they are established and a send is accepted only
/// into the live one, a message of an earlier session refused rather than
/// delivered to the wrong peer. A send that fails after sealing ends the
/// session, as the peer cannot follow the sequence past the gap. On the
/// server's side the empty frame telling the client its session is gone
/// follows, so the client handshakes again.
pub struct Funnel {
    writer: FrameWriter,  // Writing phase
    sender: Option<SealingContext>,  // Context of the live session, if there is one
    sessions: u64,  // Number of sessions established so far, the live one's number
    side: Side,  // Side of the wire the funnel sends for
    output: Output,  // Output whose outcome is awaited
}

/// What a send does to a funnel and hands out. The session has to be the live
/// one. A message too large is refused before sealing and leaves the session
/// alone, a sequence that has run out ends it.
pub open spec fn funnel_sends(
    before: Funnel,
    after: Funnel,
    session: u64,
    message: Seq<u8>,
    sent: Result<Vec<u8>, Refusal>,
) -> bool {
    &&& after.sessions() == before.sessions()
    &&& after.side() == before.side()
    &&& match session_refusal(before.live(), session) {
        Some(reason) => {
            &&& sent matches Err(refusal)
            &&& refusal.error matches Error::EncryptionFailed(text)
            &&& text@ == reason
            &&& refusal.signal is None
            &&& after == before
        },
        None => match sent {
            Ok(bytes) => {
                &&& message.len() <= MAX_MESSAGE_SIZE
                &&& after.live() == before.live()
                &&& after.output() == Output::Message
                &&& after.resync()
                &&& before.sender() matches Some(sealer)
                &&& after.sender() matches Some(advanced)
                &&& sealing::sender_context(advanced) == sealing::sender_context(sealer)
                &&& sealing::sender_sequence(sealer) <= u64::MAX
                &&& sealing::sender_sequence(advanced) == sealing::sender_sequence(sealer) + 1
                &&& before.next_packet(message).len() == message.len() + sealing::OVERHEAD
                &&& bytes@ == framing::framed(
                    before.resync(),
                    cobs::cobs_encoded(before.next_packet(message)),
                )
                &&& cobs::carries(
                    cobs::cobs_encoded(before.next_packet(message)),
                    before.next_packet(message),
                )
            },
            Err(refusal) => if message.len() > MAX_MESSAGE_SIZE {
                &&& refusal.error == Error::PacketTooLarge(message.len() as usize)
                &&& refusal.signal is None
                &&& after == before
            } else {
                &&& before.sender() matches Some(sealer)
                &&& sealing::sender_sequence(sealer) > u64::MAX
                &&& refusal.error is EncryptionFailed
                &&& after.live() == NONE
                &&& announced(before, after, refusal.signal)
            },
        },
    }
}

/// What the outcome of an output means. Only a message written whole keeps its session.
/// After a failed one the server tells the client.
pub open spec fn funnel_settles(
    before: Funnel,
    after: Funnel,
    written: bool,
    signal: Option<Vec<u8>>,
) -> bool {
    &&& after.sessions() == before.sessions()
    &&& after.side() == before.side()
    &&& match (before.output(), written) {
        (Output::Settled, _) => signal is None && after == before,
        (Output::Message, false) => {
            &&& after.live() == NONE
            &&& if before.side() == Side::Server {
                &&& signal matches Some(bytes)
                &&& bytes@ == framing::framed(true, Seq::empty())
                &&& after.output() == Output::Own
            } else {
                &&& signal is None
                &&& after.output() == Output::Settled
            }
            &&& after.resync()
        },
        _ => {
            &&& signal is None
            &&& after.live() == before.live()
            &&& after.sender() == before.sender()
            &&& after.output() == Output::Settled
            &&& after.resync() == !written
        },
    }
}

/// A packet outside the session is handed out as one frame, or refused if its frame would
/// exceed the size limit.
pub open spec fn hands_out_packet(
    before: Funnel,
    after: Funnel,
    packet: Seq<u8>,
    output: Result<Vec<u8>, Error>,
) -> bool {
    match output {
        Ok(bytes) => {
            &&& cobs::encoded_bound(packet.len() as int) <= MAX_FRAME_SIZE
            &&& bytes@ == framing::framed(before.resync(), cobs::cobs_encoded(packet))
            &&& cobs::carries(cobs::cobs_encoded(packet), packet)
            &&& funnel_writes(before, after)
        },
        Err(error) => {
            &&& cobs::encoded_bound(packet.len() as int) > MAX_FRAME_SIZE
            &&& error == Error::FrameTooLarge(cobs::capped_bound(packet.len() as int))
            &&& after == before
        },
    }
}

/// Installing the context of a session, under the next number.
pub open spec fn establishes(before: Funnel, after: Funnel, sender: SealingContext) -> bool {
    &&& after.sessions() == before.sessions() + 1
    &&& after.live() == after.sessions()
    &&& after.sender() == Some(sender)
    &&& after.resync() == before.resync()
    &&& after.side() == before.side()
    &&& after.output() == before.output()
}

/// Ending the session for the sends.
pub open spec fn forgets(before: Funnel, after: Funnel) -> bool {
    &&& after.live() == NONE
    &&& after.sender() is None
    &&& after.sessions() == before.sessions()
    &&& after.resync() == before.resync()
    &&& after.side() == before.side()
    &&& after.output() == before.output()
}

/// On the server's side the client is told that its session is gone.
pub open spec fn announced(before: Funnel, after: Funnel, signal: Option<Vec<u8>>) -> bool {
    if before.side() == Side::Server {
        &&& signal matches Some(bytes)
        &&& bytes@ == framing::framed(before.resync(), Seq::empty())
        &&& after.output() == Output::Own
        &&& after.resync()
    } else {
        &&& signal is None
        &&& after.output() == Output::Settled
        &&& after.resync() == before.resync()
    }
}

impl Funnel {
    /// Whether the next output starts with a delimiter, the last one having failed.
    pub closed spec fn resync(self) -> bool {
        self.writer.resync
    }

    /// Context of the live session.
    pub closed spec fn sender(self) -> Option<SealingContext> {
        self.sender
    }

    /// Number of sessions established so far.
    pub closed spec fn sessions(self) -> u64 {
        self.sessions
    }

    /// Number of the live session, or `NONE`.
    pub closed spec fn live(self) -> u64 {
        if self.sender is Some {
            self.sessions
        } else {
            NONE
        }
    }

    /// Side of the wire the funnel sends for.
    pub closed spec fn side(self) -> Side {
        self.side
    }

    /// Output whose outcome is awaited.
    pub closed spec fn output(self) -> Output {
        self.output
    }

    /// Packet that the next message makes.
    pub open spec fn next_packet(self, message: Seq<u8>) -> Seq<u8> {
        match self.sender() {
            Some(sender) => sealing::packet_of(
                sealing::sender_context(sender),
                sealing::sender_sequence(sender),
                message,
            ),
            None => Seq::empty(),
        }
    }

    /// Creates the funnel, without a session until a handshake establishes one.
    pub fn new(side: Side) -> (funnel: Funnel)
        ensures
            !funnel.resync(),
            funnel.sessions() == 0,
            funnel.live() == NONE,
            funnel.side() == side,
            funnel.output() == Output::Settled,
    {
        Funnel {
            writer: FrameWriter::new(),
            sender: None,
            sessions: 0,
            side,
            output: Output::Settled,
        }
    }

    /// Creates a handle sending into the live session, refused once that one
    /// ended, and refused outright without a session.
    pub fn emitter(&self) -> (emitter: Emitter)
        ensures
            emitter.session() == self.live(),
    {
        Emitter { session: self.session() }
    }

    /// Installs the context of a freshly established session, the next one by
    /// number, sends going out from here on.
    pub fn establish_session(&mut self, sender: SealingContext)
        requires
            old(self).sessions() < u64::MAX,
        ensures
            establishes(*old(self), *final(self), sender),
    {
        self.sender = Some(sender);
        self.sessions = self.sessions + 1;
    }

    /// Whether there is a number left for another session.
    pub fn can_establish(&self) -> (can: bool)
        ensures
            can == (self.sessions() < u64::MAX),
    {
        self.sessions < u64::MAX
    }

    /// Ends the session for the sends, the handles made in it refused from here
    /// on, the next handshake handing out new ones.
    pub fn drop_session(&mut self)
        ensures
            forgets(*old(self), *final(self)),
    {
        self.sender = None;
    }

    /// Whether a session is installed for sends.
    pub fn has_session(&self) -> (has: bool)
        ensures
            has == (self.live() != NONE),
    {
        self.session() != NONE
    }

    /// Number of the installed session, counting the ones established so far, or
    /// zero without one.
    pub fn session(&self) -> (session: u64)
        ensures
            session == self.live(),
    {
        match self.sender {
            Some(_) => self.sessions,
            None => NONE,
        }
    }

    /// Seals a message with the session and hands out its frame. Fails unless the
    /// session is the live one. A message too large is rejected before sealing and
    /// leaves the session alone, a failure of the sealing ends it.
    pub fn send(&mut self, session: u64, message: &[u8]) -> (sent: Result<Vec<u8>, Refusal>)
        requires
            old(self).output() == Output::Settled,
        ensures
            funnel_sends(*old(self), *final(self), session, message@, sent),
    {
        match check_session(self.session(), session) {
            Ok(_) => {},
            Err(error) => return Err(Refusal { error, signal: None }),
        }
        let mut sender = match self.sender.take() {
            Some(sender) => sender,
            None => {
                let error = Error::EncryptionFailed(String::from_str("no active session"));
                return Err(Refusal { error, signal: None });
            },
        };
        match sealing::seal(&mut sender, message) {
            Ok(packet) => {
                proof {
                    super::lemma_max_message_size(message@.len() as int);
                }
                self.sender = Some(sender);
                match self.writer.send_packet(packet.as_slice()) {
                    Ok(bytes) => {
                        self.output = Output::Message;
                        Ok(bytes)
                    },
                    Err(error) => Err(Refusal { error, signal: None }),
                }
            },
            Err(Error::PacketTooLarge(size)) => {
                self.sender = Some(sender);
                Err(Refusal { error: Error::PacketTooLarge(size), signal: None })
            },
            Err(error) => {
                let signal = self.announce_dropped();
                Err(Refusal { error, signal })
            },
        }
    }

    /// Tells the client the session is gone if this is the server's side.
    fn announce_dropped(&mut self) -> (signal: Option<Vec<u8>>)
        requires
            old(self).output == Output::Settled,
        ensures
            final(self).sender == old(self).sender,
            final(self).sessions == old(self).sessions,
            final(self).side == old(self).side,
            announced(*old(self), *final(self), signal),
    {
        if self.side.announces_drops() {
            self.output = Output::Own;
            Some(self.writer.send_dropped())
        } else {
            None
        }
    }

    /// Reports whether the output handed out last was written and flushed whole. A
    /// failed message ends the session and, on the server's side, hands out the
    /// signal telling the client so.
    pub fn sent(&mut self, written: bool) -> (signal: Option<Vec<u8>>)
        ensures
            funnel_settles(*old(self), *final(self), written, signal),
    {
        let output = self.output;
        if output == Output::Settled {
            return None;
        }
        self.writer.complete(written);
        self.output = Output::Settled;
        if written || output == Output::Own {
            return None;
        }
        self.drop_session();
        self.announce_dropped()
    }

    /// Hands out a session reset, see `FrameWriter::send_reset`.
    pub fn send_reset(&mut self) -> (output: Vec<u8>)
        requires
            old(self).output() == Output::Settled,
        ensures
            resets(*old(self), *final(self), output@),
    {
        self.output = Output::Own;
        self.writer.send_reset()
    }

    /// Hands out the signal of a dropped session, see `FrameWriter::send_dropped`.
    pub fn send_dropped(&mut self) -> (output: Vec<u8>)
        requires
            old(self).output() == Output::Settled,
        ensures
            hands_out_frame(*old(self), *final(self), Seq::empty(), output@),
    {
        self.output = Output::Own;
        self.writer.send_dropped()
    }

    /// Hands out a packet outside the session, the handshake's own, see
    /// `FrameWriter::send_packet`.
    pub fn send_packet(&mut self, packet: &[u8]) -> (output: Result<Vec<u8>, Error>)
        requires
            old(self).output() == Output::Settled,
        ensures
            hands_out_packet(*old(self), *final(self), packet@, output),
    {
        let output = self.writer.send_packet(packet);
        if output.is_ok() {
            self.output = Output::Own;
        }
        output
    }

    /// Hands out a frame body as it is.
    pub fn send_frame_blob(&mut self, frame: &[u8]) -> (output: Vec<u8>)
        requires
            old(self).output() == Output::Settled,
        ensures
            hands_out_frame(*old(self), *final(self), frame@, output@),
    {
        self.output = Output::Own;
        self.writer.send_frame_blob(frame)
    }
}

/// A session reset is handed out.
pub open spec fn resets(before: Funnel, after: Funnel, output: Seq<u8>) -> bool {
    &&& output == seq![0u8, 0u8]
    &&& funnel_writes(before, after)
}

/// A frame body is handed out as it is, an empty one being the signal of a dropped session.
pub open spec fn hands_out_frame(
    before: Funnel,
    after: Funnel,
    frame: Seq<u8>,
    output: Seq<u8>,
) -> bool {
    &&& output == framing::framed(before.resync(), frame)
    &&& funnel_writes(before, after)
}

/// Handing out a frame of the owner's own leaves the session alone.
pub open spec fn funnel_writes(before: Funnel, after: Funnel) -> bool {
    &&& after.sessions() == before.sessions()
    &&& after.live() == before.live()
    &&& after.sender() == before.sender()
    &&& after.side() == before.side()
    &&& after.output() == Output::Own
    &&& after.resync()
}

/// A handle is accepted only in the session it was made in: once another session
/// is live, or none is, every send through it is refused and changes nothing.
pub proof fn law_emitter_is_bound(
    before: Funnel,
    after: Funnel,
    emitter: Emitter,
    message: Seq<u8>,
    sent: Result<Vec<u8>, Refusal>,
)
    requires
        funnel_sends(before, after, emitter.session(), message, sent),
        emitter.session() != before.live() || before.live() == NONE,
    ensures
        sent is Err,
        after == before,
{
}

/// A send through a handle of the live session succeeds whenever the message is within
/// the limit and the sequence has a number left for it. Only a message above the limit is
/// refused for its size, which leaves everything as it was.
pub proof fn law_send_succeeds(
    before: Funnel,
    after: Funnel,
    session: u64,
    message: Seq<u8>,
    sent: Result<Vec<u8>, Refusal>,
)
    requires
        funnel_sends(before, after, session, message, sent),
    ensures
        before.sender() matches Some(sealer) && before.sessions() == session && session != NONE
            && message.len() <= MAX_MESSAGE_SIZE && sealing::sender_sequence(sealer) <= u64::MAX
            ==> sent is Ok,
        sent matches Err(refusal) && refusal.error is PacketTooLarge ==> {
            &&& message.len() > MAX_MESSAGE_SIZE
            &&& after == before
        },
        before.sender() is Some && before.sessions() == session && session != NONE
            && message.len() > MAX_MESSAGE_SIZE ==> (sent matches Err(refusal) && refusal.error
            == Error::PacketTooLarge(message.len() as usize) && refusal.signal is None),
        sent is Ok ==> before.sender() is Some && before.sessions() == session,
{
}

/// The message sent is the message that the peer opens, whole and unchanged. What a send
/// hands out is read as one packet, at a frame boundary or behind whatever a failed output
/// left unfinished, and that packet opens to the message if the peer stands at the same
/// position of the session. Both then stand at the next one.
pub proof fn law_message_arrives(
    before: Funnel,
    after: Funnel,
    session: u64,
    message: Seq<u8>,
    bytes: Vec<u8>,
    input: framing::Input,
    receiver: OpeningContext,
    received: OpeningContext,
    opened: Result<Vec<u8>, Error>,
)
    requires
        funnel_sends(before, after, session, message, Ok(bytes)),
        before.sender() matches Some(sealer) && sealing::in_step(sealer, receiver),
        before.resync() || input == framing::boundary(),
        framing::arrival(framing::items(framing::extended(input, bytes@)).last()) matches
            framing::Arrival::Packet(packet) ==> sealing::opened_by(
            receiver,
            received,
            packet,
            opened,
        ),
    ensures
        framing::items(framing::extended(input, bytes@)).len() >= 1,
        framing::arrival(framing::items(framing::extended(input, bytes@)).last()) is Packet,
        opened matches Ok(plain) && plain@ == message,
        after.sender() matches Some(advanced) && sealing::in_step(advanced, received),
        framing::drained(framing::extended(input, bytes@)) == framing::boundary(),
{
    let sealed = before.next_packet(message);
    framing::law_packet_reads_back(input, before.resync(), cobs::cobs_encoded(sealed), sealed);
}

/// The signal that tells a client of its ended session is read as a reset, at a frame
/// boundary or behind whatever a failed output left unfinished. The server alone gives
/// one.
pub proof fn law_announcement_arrives(
    before: Funnel,
    after: Funnel,
    signal: Option<Vec<u8>>,
    input: framing::Input,
)
    requires
        announced(before, after, signal),
        before.resync() || input == framing::boundary(),
    ensures
        signal is Some <==> before.side() == Side::Server,
        signal matches Some(bytes) ==> {
            let items = framing::items(framing::extended(input, bytes@));
            &&& items.len() >= 1
            &&& framing::arrival(items.last()) == framing::Arrival::Reset
            &&& framing::drained(framing::extended(input, bytes@)) == framing::boundary()
        },
{
    let empty = Seq::<u8>::empty();
    if before.resync() {
        framing::law_resync(input, empty);
    } else {
        framing::law_frame_reads_back(empty);
    }
}

/// A handle sends into the session that was live when it was made, and into no other: it
/// is refused with the reason that there is none, or that its own ended.
pub proof fn law_refusal_names_reason(live: u64, session: u64)
    ensures
        session_refusal(live, session) is None <==> live != 0 && live == session,
        live == 0 ==> session_refusal(live, session) == Some("no active session"@),
        live != 0 && live != session ==> session_refusal(live, session) == Some("session ended"@),
{
}

/// Whatever is reported of an output, no session begins by it, and only a message that was
/// not written whole ends one. The next output starts with a delimiter exactly if this one
/// failed, and the signal to the client is the server's.
pub proof fn law_outcome_settles(
    before: Funnel,
    after: Funnel,
    written: bool,
    signal: Option<Vec<u8>>,
)
    requires
        funnel_settles(before, after, written, signal),
    ensures
        after.sessions() == before.sessions(),
        before.output() == Output::Message && !written ==> after.live() == NONE,
        before.output() != Output::Message || written ==> after.live() == before.live()
            && after.sender() == before.sender(),
        before.output() != Output::Settled ==> after.resync() == !written,
        signal is Some <==> before.output() == Output::Message && !written && before.side()
            == Side::Server,
        signal matches Some(bytes) ==> bytes@ == seq![0u8, 0u8],
        after.output() != Output::Settled ==> signal is Some,
{
    if let Some(bytes) = signal {
        assert(bytes@ =~= seq![0u8, 0u8]);
    }
}

/// A packet is handed out exactly if its encoding is sure to fit a frame, and is then the
/// packet that the peer reads, at a frame boundary or behind whatever a failed output left
/// unfinished. The session is left alone.
pub proof fn law_packet_arrives(
    before: Funnel,
    after: Funnel,
    packet: Seq<u8>,
    output: Result<Vec<u8>, Error>,
    input: framing::Input,
)
    requires
        hands_out_packet(before, after, packet, output),
        before.resync() || input == framing::boundary(),
    ensures
        output is Ok <==> packet.len() + (packet.len() + 253) / 254 + 1 <= 2_097_152,
        output matches Ok(bytes) ==> {
            let items = framing::items(framing::extended(input, bytes@));
            &&& items.len() >= 1
            &&& framing::arrival(items.last()) == framing::Arrival::Packet(packet)
            &&& framing::drained(framing::extended(input, bytes@)) == framing::boundary()
        },
        after.sender() == before.sender(),
        after.sessions() == before.sessions(),
        output is Err ==> after == before,
{
    if output is Ok {
        framing::law_packet_reads_back(
            input,
            before.resync(),
            cobs::cobs_encoded(packet),
            packet,
        );
    }
}

/// A session established outdates every handle made before, and one dropped outdates every
/// handle there is. The numbers of sessions never repeat.
pub proof fn law_session_outdates_handles(
    before: Funnel,
    after: Funnel,
    sender: SealingContext,
    emitter: Emitter,
)
    requires
        establishes(before, after, sender) || forgets(before, after),
        emitter.session() <= before.sessions(),
    ensures
        session_refusal(after.live(), emitter.session()) is Some,
        establishes(before, after, sender) ==> {
            &&& after.live() > before.sessions()
            &&& after.sender() == Some(sender)
        },
        forgets(before, after) ==> after.sender() is None && after.sessions() == before.sessions(),
        after.resync() == before.resync(),
        after.output() == before.output(),
{
}

/// The session told is the live one: its number is that of the sessions established so far,
/// or zero without one, and a handle made sends into it.
pub proof fn law_session_is_numbered(funnel: Funnel, id: u64, emitter: Emitter, has: bool)
    requires
        call_ensures(Funnel::session, (&funnel,), id),
        call_ensures(Funnel::emitter, (&funnel,), emitter),
        call_ensures(Funnel::has_session, (&funnel,), has),
    ensures
        funnel.sender() is Some ==> id == funnel.sessions(),
        funnel.sender() is None ==> id == 0,
        emitter.session() == id,
        has <==> id != 0,
{
}

/// A frame handed out is the frame that the peer reads, at a frame boundary or behind
/// whatever a failed output left unfinished, an empty one as a reset. The session is left
/// alone.
pub proof fn law_frame_arrives(
    before: Funnel,
    after: Funnel,
    frame: Seq<u8>,
    output: Seq<u8>,
    input: framing::Input,
)
    requires
        hands_out_frame(before, after, frame, output),
        cobs::zero_free(frame),
        frame.len() <= MAX_FRAME_SIZE,
        before.resync() || input == framing::boundary(),
    ensures
        framing::items(framing::extended(input, output)).len() >= 1,
        framing::items(framing::extended(input, output)).last() == framing::Item::Frame(frame),
        frame.len() == 0 ==> framing::arrival(
            framing::items(framing::extended(input, output)).last(),
        ) == framing::Arrival::Reset,
        framing::drained(framing::extended(input, output)) == framing::boundary(),
        after.sender() == before.sender(),
        after.sessions() == before.sessions(),
{
    if before.resync() {
        framing::law_resync(input, frame);
    } else {
        framing::law_frame_reads_back(frame);
    }
}

/// A reset handed out is read as one, whatever was left unfinished before it by anyone.
pub proof fn law_reset_arrives(
    before: Funnel,
    after: Funnel,
    output: Seq<u8>,
    input: framing::Input,
)
    requires
        resets(before, after, output),
    ensures
        framing::arrival(framing::items(framing::extended(input, output)).last())
            == framing::Arrival::Reset,
        framing::drained(framing::extended(input, output)) == framing::boundary(),
        after.sender() == before.sender(),
        after.sessions() == before.sessions(),
{
    framing::law_reset_reads_back(input);
}

} // verus!
