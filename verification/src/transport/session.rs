//! Encryption contexts of one handshake, for both directions.

use darkbio_crypto::xhpke::{Receiver as OpeningContext, Sender as SealingContext};
use vstd::prelude::*;

use super::cobs;
use super::framing;
use super::sealing;
use super::{Error, MAX_MESSAGE_SIZE};

verus! {

/// Established session, holding the encryption contexts of the two directions.
pub struct Session {
    pub sender: SealingContext,  // Outbound context, sealing messages to the peer
    pub receiver: OpeningContext,  // Inbound context, opening messages from the peer
}

impl Session {
    /// Packet that the next message makes.
    pub open spec fn next_packet(self, message: Seq<u8>) -> Seq<u8> {
        sealing::packet_of(
            sealing::sender_context(self.sender),
            sealing::sender_sequence(self.sender),
            message,
        )
    }

    /// Whether another session is this one after sealing one more message.
    pub open spec fn advanced(self, next: Session) -> bool {
        &&& next.receiver == self.receiver
        &&& sealing::sender_context(next.sender) == sealing::sender_context(self.sender)
        &&& sealing::sender_sequence(next.sender) == sealing::sender_sequence(self.sender) + 1
    }

    /// Whether sending a message puts its packet on the wire as one frame, and leaves
    /// another session to go on with.
    pub open spec fn sends(
        self,
        next: Session,
        message: Seq<u8>,
        resync: bool,
        bytes: Seq<u8>,
    ) -> bool {
        let packet = self.next_packet(message);
        &&& message.len() <= MAX_MESSAGE_SIZE
        &&& sealing::sender_sequence(self.sender) <= u64::MAX
        &&& packet.len() == message.len() + sealing::OVERHEAD
        &&& cobs::carries(cobs::cobs_encoded(packet), packet)
        &&& bytes == framing::framed(resync, cobs::cobs_encoded(packet))
        &&& self.advanced(next)
    }

    /// Message that a packet holds at the position of the session, if it is authentic.
    pub open spec fn message_in(self, packet: Seq<u8>) -> Option<Seq<u8>> {
        sealing::message_of(
            sealing::receiver_context(self.receiver),
            sealing::receiver_sequence(self.receiver),
            packet,
        )
    }

    /// Whether a packet that the peer made of a message holds that message.
    pub open spec fn reads_back(self, packet: Seq<u8>) -> bool {
        sealing::reads_back(
            sealing::receiver_context(self.receiver),
            sealing::receiver_sequence(self.receiver),
            packet,
        )
    }

    /// Whether another session is this one after opening one more packet.
    pub open spec fn received(self, next: Session) -> bool {
        &&& next.sender == self.sender
        &&& sealing::receiver_context(next.receiver) == sealing::receiver_context(self.receiver)
        &&& sealing::receiver_sequence(next.receiver) == sealing::receiver_sequence(self.receiver)
            + 1
    }

    /// Seals a message for the peer. An oversized message is refused before
    /// sealing, leaving the sequence untouched.
    pub fn seal(&mut self, message: &[u8]) -> (sealed: Result<Vec<u8>, Error>)
        ensures
            final(self).receiver == old(self).receiver,
            sealing::sealed_by(old(self).sender, final(self).sender, message@, sealed),
    {
        sealing::seal(&mut self.sender, message)
    }

    /// Opens a sealed packet from the peer. A failure means that the sequence can
    /// no longer be followed.
    pub fn open(&mut self, packet: &[u8]) -> (opened: Result<Vec<u8>, Error>)
        ensures
            final(self).sender == old(self).sender,
            sealing::opened_by(old(self).receiver, final(self).receiver, packet@, opened),
    {
        sealing::open(&mut self.receiver, packet)
    }
}

/// The message sent is the message that the peer opens, whole and unchanged. What a send
/// puts on the wire is read as one packet, at a frame boundary or behind whatever a failed
/// output left unfinished, and that packet opens to the message if the peer stands at the
/// same position of the session. Both then stand at the next one.
pub proof fn law_message_arrives(
    session: Session,
    next: Session,
    message: Seq<u8>,
    resync: bool,
    bytes: Seq<u8>,
    input: framing::Input,
    receiver: OpeningContext,
    received: OpeningContext,
    opened: Result<Vec<u8>, Error>,
)
    requires
        session.sends(next, message, resync, bytes),
        sealing::in_step(session.sender, receiver),
        resync || input == framing::boundary(),
        framing::arrival(framing::items(framing::extended(input, bytes)).last()) matches
            framing::Arrival::Packet(packet) ==> sealing::opened_by(
            receiver,
            received,
            packet,
            opened,
        ),
    ensures
        framing::arrival(framing::items(framing::extended(input, bytes)).last()) is Packet,
        opened matches Ok(plain) && plain@ == message,
        sealing::in_step(next.sender, received),
        next.receiver == session.receiver,
        framing::drained(framing::extended(input, bytes)) == framing::boundary(),
{
    let packet = session.next_packet(message);
    framing::law_packet_reads_back(input, resync, cobs::cobs_encoded(packet), packet);
}

} // verus!
