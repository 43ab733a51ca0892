//! Sealing of messages into packets with the encryption context of a direction,
//! and opening them again.

use darkbio_crypto::xhpke::{
    Error as ContextError, Receiver as OpeningContext, Sender as SealingContext,
};
use vstd::prelude::*;

use super::{Error, MAX_MESSAGE_SIZE};

verus! {

/// Bytes that sealing adds to a message, the authentication tag. Sealing
/// advances the encryption sequence, so message sizes are bounded with this
/// before sealing rather than by rejecting the sealed output afterwards.
pub const OVERHEAD: usize = 16;

/// Sending half of an encrypted session.
#[verifier::external_type_specification]
#[verifier::external_body]
pub struct ExSealingContext(SealingContext);

/// Receiving half of an encrypted session.
#[verifier::external_type_specification]
#[verifier::external_body]
pub struct ExOpeningContext(OpeningContext);

/// The encryption crate's own error.
#[verifier::external_type_specification]
#[verifier::external_body]
pub struct ExContextError(ContextError);

/// Key material that a sending context was set up with.
pub uninterp spec fn sender_context(sender: SealingContext) -> Seq<u8>;

/// Number of messages that a sending context sealed so far.
pub uninterp spec fn sender_sequence(sender: SealingContext) -> nat;

/// Key material that a receiving context was set up with.
pub uninterp spec fn receiver_context(receiver: OpeningContext) -> Seq<u8>;

/// Number of messages that a receiving context opened so far.
pub uninterp spec fn receiver_sequence(receiver: OpeningContext) -> nat;

/// Packet that sealing a message makes, by the key material, the position in the
/// sequence, the message and the text authenticated along with it.
pub uninterp spec fn xhpke_sealed(
    context: Seq<u8>,
    sequence: nat,
    message: Seq<u8>,
    auth: Seq<u8>,
) -> Seq<u8>;

/// Message that opening a packet gives, if it is authentic at this position.
pub uninterp spec fn xhpke_opened(
    context: Seq<u8>,
    sequence: nat,
    packet: Seq<u8>,
    auth: Seq<u8>,
) -> Option<Seq<u8>>;

/// `xhpke::Sender::seal` encrypts with the next nonce of the sequence and appends
/// a tag of 16 bytes. It fails once the 64-bit sequence counter has run out, and on
/// a message much longer than 2^32 bytes. A failure leaves the sequence where it
/// was.
pub assume_specification[ SealingContext::seal ](
    sender: &mut SealingContext,
    msg_to_seal: &[u8],
    msg_to_auth: &[u8],
) -> (sealed: Result<Vec<u8>, ContextError>)
    ensures
        sender_context(*final(sender)) == sender_context(*old(sender)),
        sender_sequence(*old(sender)) <= u64::MAX && msg_to_seal@.len() <= u32::MAX ==> sealed is Ok,
        match sealed {
            Ok(packet) => {
                &&& sender_sequence(*old(sender)) <= u64::MAX
                &&& packet@ == xhpke_sealed(
                    sender_context(*old(sender)),
                    sender_sequence(*old(sender)),
                    msg_to_seal@,
                    msg_to_auth@,
                )
                &&& packet@.len() == msg_to_seal@.len() + 16
                &&& sender_sequence(*final(sender)) == sender_sequence(*old(sender)) + 1
            },
            Err(_) => sender_sequence(*final(sender)) == sender_sequence(*old(sender)),
        },
;

/// `xhpke::Receiver::open` decrypts with the next nonce of the sequence, which
/// advances only if the packet is authentic. A packet sealed with the same key
/// material at the same position opens to its message, as long as the position
/// is one the 64-bit sequence counter can take.
pub assume_specification[ OpeningContext::open ](
    receiver: &mut OpeningContext,
    msg_to_open: &[u8],
    msg_to_auth: &[u8],
) -> (opened: Result<Vec<u8>, ContextError>)
    ensures
        receiver_context(*final(receiver)) == receiver_context(*old(receiver)),
        match opened {
            Ok(message) => {
                &&& xhpke_opened(
                    receiver_context(*old(receiver)),
                    receiver_sequence(*old(receiver)),
                    msg_to_open@,
                    msg_to_auth@,
                ) == Some(message@)
                &&& receiver_sequence(*final(receiver)) == receiver_sequence(*old(receiver)) + 1
            },
            Err(_) => {
                &&& xhpke_opened(
                    receiver_context(*old(receiver)),
                    receiver_sequence(*old(receiver)),
                    msg_to_open@,
                    msg_to_auth@,
                ) is None
                &&& receiver_sequence(*final(receiver)) == receiver_sequence(*old(receiver))
            },
        },
        forall|message: Seq<u8>|
            receiver_sequence(*old(receiver)) <= u64::MAX && msg_to_open@.len() == message.len()
                + 16 && msg_to_open@ == #[trigger] xhpke_sealed(
                receiver_context(*old(receiver)),
                receiver_sequence(*old(receiver)),
                message,
                msg_to_auth@,
            ) ==> (opened matches Ok(bytes) && bytes@ == message),
;

/// Text authenticated along with session messages: none.
pub open spec fn no_auth() -> Seq<u8> {
    Seq::empty()
}

/// Packet made of a message at a position in a session.
pub open spec fn packet_of(context: Seq<u8>, sequence: nat, message: Seq<u8>) -> Seq<u8> {
    xhpke_sealed(context, sequence, message, no_auth())
}

/// Message that a packet holds at a position in a session, if it is authentic.
pub open spec fn message_of(context: Seq<u8>, sequence: nat, packet: Seq<u8>) -> Option<Seq<u8>> {
    xhpke_opened(context, sequence, packet, no_auth())
}

/// A packet that was made of a message at this position of the session holds that
/// message.
pub open spec fn reads_back(context: Seq<u8>, sequence: nat, packet: Seq<u8>) -> bool {
    forall|message: Seq<u8>|
        sequence <= u64::MAX && packet.len() == message.len() + OVERHEAD && packet
            == #[trigger] packet_of(context, sequence, message) ==> message_of(
            context,
            sequence,
            packet,
        ) == Some(message)
}

/// What sealing a message does to a sending context, and what comes out. Messages
/// above the limit are refused before sealing, leaving the sequence untouched. All
/// others are sealed until the sequence runs out.
pub open spec fn sealed_by(
    before: SealingContext,
    after: SealingContext,
    message: Seq<u8>,
    sealed: Result<Vec<u8>, Error>,
) -> bool {
    &&& sender_context(after) == sender_context(before)
    &&& match sealed {
        Ok(packet) => {
            &&& message.len() <= MAX_MESSAGE_SIZE
            &&& sender_sequence(before) <= u64::MAX
            &&& packet@ == packet_of(sender_context(before), sender_sequence(before), message)
            &&& packet@.len() == message.len() + OVERHEAD
            &&& sender_sequence(after) == sender_sequence(before) + 1
        },
        Err(Error::PacketTooLarge(size)) => {
            &&& message.len() > MAX_MESSAGE_SIZE
            &&& size == message.len()
            &&& after == before
        },
        Err(err) => {
            &&& message.len() <= MAX_MESSAGE_SIZE
            &&& sender_sequence(before) > u64::MAX
            &&& err is EncryptionFailed
            &&& sender_sequence(after) == sender_sequence(before)
        },
    }
}

/// What opening a packet does to a receiving context, and what comes out. A
/// packet that the peer sealed at this position of the same session opens to
/// the peer's message.
pub open spec fn opened_by(
    before: OpeningContext,
    after: OpeningContext,
    packet: Seq<u8>,
    opened: Result<Vec<u8>, Error>,
) -> bool {
    let context = receiver_context(before);
    let sequence = receiver_sequence(before);
    &&& receiver_context(after) == context
    &&& match opened {
        Ok(message) => {
            &&& message_of(context, sequence, packet) == Some(message@)
            &&& receiver_sequence(after) == sequence + 1
        },
        Err(err) => {
            &&& err is EncryptionFailed
            &&& message_of(context, sequence, packet) is None
            &&& receiver_sequence(after) == sequence
        },
    }
    &&& reads_back(context, sequence, packet)
}

/// Whether a sending and a receiving context share key material and position, so
/// that the next message sealed with one opens with the other.
pub open spec fn in_step(sender: SealingContext, receiver: OpeningContext) -> bool {
    &&& receiver_context(receiver) == sender_context(sender)
    &&& receiver_sequence(receiver) == sender_sequence(sender)
}

/// A message sealed by one side is the message opened by the other, if their
/// contexts share key material and position. Both then stand at the next
/// position.
pub proof fn law_message_reads_back(
    sender: SealingContext,
    sent: SealingContext,
    message: Seq<u8>,
    packet: Vec<u8>,
    receiver: OpeningContext,
    received: OpeningContext,
    opened: Result<Vec<u8>, Error>,
)
    requires
        sealed_by(sender, sent, message, Ok(packet)),
        opened_by(receiver, received, packet@, opened),
        in_step(sender, receiver),
    ensures
        opened matches Ok(bytes) && bytes@ == message,
        in_step(sent, received),
{
}

/// Seals a message for the peer with the outbound context. Messages above the
/// limit are refused before sealing; a failure of the sealing itself leaves the
/// context unusable.
pub fn seal(sender: &mut SealingContext, message: &[u8]) -> (sealed: Result<Vec<u8>, Error>)
    ensures
        sealed_by(*old(sender), *final(sender), message@, sealed),
{
    if message.len() > MAX_MESSAGE_SIZE {
        return Err(Error::PacketTooLarge(message.len()));
    }
    let auth: Vec<u8> = Vec::new();
    assert(auth@ =~= no_auth());
    match sender.seal(message, auth.as_slice()) {
        Ok(packet) => Ok(packet),
        Err(err) => Err(Error::EncryptionFailed(err.to_string())),
    }
}

/// Opens a sealed packet from the peer with the inbound context. A failure to
/// decrypt means the sequence can no longer be followed.
pub fn open(receiver: &mut OpeningContext, packet: &[u8]) -> (opened: Result<Vec<u8>, Error>)
    ensures
        opened_by(*old(receiver), *final(receiver), packet@, opened),
{
    let auth: Vec<u8> = Vec::new();
    assert(auth@ =~= no_auth());
    match receiver.open(packet, auth.as_slice()) {
        Ok(message) => Ok(message),
        Err(err) => Err(Error::EncryptionFailed(err.to_string())),
    }
}

/// Every message up to the limit is sealed, as long as the sequence has a number left
/// for it, and only a message above the limit is refused for its size.
pub proof fn law_seal_succeeds(
    before: SealingContext,
    after: SealingContext,
    message: Seq<u8>,
    sealed: Result<Vec<u8>, Error>,
)
    requires
        sealed_by(before, after, message, sealed),
    ensures
        sealed is Ok <==> message.len() <= 2_088_910 && sender_sequence(before) <= u64::MAX,
        message.len() > 2_088_910 <==> (sealed matches Err(error)
            && error is PacketTooLarge),
        sealed matches Err(Error::PacketTooLarge(size)) ==> size == message.len() && after == before,
        sealed matches Ok(packet) ==> packet@ == xhpke_sealed(
            sender_context(before),
            sender_sequence(before),
            message,
            seq![],
        ),
        sender_sequence(after) - sender_sequence(before) == (if sealed is Ok {
            1int
        } else {
            0int
        }),
{
}

/// A packet opens exactly if it is authentic at the position that the context stands at,
/// and to exactly what was sealed. Only then does the position advance.
pub proof fn law_open_is_exact(
    before: OpeningContext,
    after: OpeningContext,
    packet: Seq<u8>,
    opened: Result<Vec<u8>, Error>,
)
    requires
        opened_by(before, after, packet, opened),
    ensures
        match xhpke_opened(receiver_context(before), receiver_sequence(before), packet, seq![]) {
            Some(message) => opened matches Ok(bytes) && bytes@ == message,
            None => opened matches Err(error) && error is EncryptionFailed,
        },
        receiver_context(after) == receiver_context(before),
        receiver_sequence(after) - receiver_sequence(before) == (if opened is Ok {
            1int
        } else {
            0int
        }),
{
}

} // verus!
