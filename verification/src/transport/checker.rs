//! Comparison of a client's output with a recorded one. Deterministic output must
//! match the recorded bytes. Complete encrypted frames can differ, so they are
//! opened with the server's keys to compare their contents.

use darkbio_crypto::xdsa::PublicKey as VerifyingKey;
use darkbio_crypto::xhpke::{Receiver as OpeningContext, SecretKey as DecryptionKey};
use vstd::prelude::*;
use vstd::slice::{slice_subrange, slice_to_vec};

use super::cobs;
use super::envelope;
use super::handshake;
use super::keys;
use super::sealing;
use crate::bytes::same_bytes;

verus! {

/// Way in which the client's output differs from the recorded one.
#[derive(Clone, Copy, Debug, PartialEq, Eq, Structural)]
pub enum Mismatch {
    /// Successful output ends within a frame.
    Unfinished,
    /// A signal differs from the recorded one.
    Signal,
    /// A recovery delimiter is missing, or was not recorded.
    Recovery,
    /// A frame is not the encoding of a packet.
    Undecodable,
    /// A hello differs from the recorded one.
    Hello,
    /// An ack is sealed to another key than the recorded one.
    Recipient,
    /// An ack is sealed to a key the server never had.
    UnknownRecipient,
    /// An ack precedes any handshake.
    NoHandshake,
    /// An ack does not open.
    Ack,
    /// A request precedes any ack.
    NoAck,
    /// A request does not open.
    Request,
    /// A request holds another message than the one sent.
    Message,
}

/// What matching output does to the peer that receives it.
pub enum Receipt {
    /// Nothing.
    Kept,
    /// An ack sets up the context for requests, from this key material.
    Installed(Seq<u8>),
    /// A request takes the context to its next position.
    Advanced,
}

/// Whether every byte is a delimiter.
pub open spec fn all_delimiters(bytes: Seq<u8>) -> bool {
    forall|i: int| 0 <= i < bytes.len() ==> bytes[i] == 0
}

/// Whether output starts with a delimiter, which ends what was unfinished before.
pub open spec fn recovers(bytes: Seq<u8>) -> bool {
    bytes.len() > 0 && bytes[0] == 0
}

/// Whether output ends with a delimiter.
pub open spec fn finished(bytes: Seq<u8>) -> bool {
    bytes.len() > 0 && bytes.last() == 0
}

/// Output behind its recovery delimiter, if it starts with one.
pub open spec fn recovered(bytes: Seq<u8>) -> Seq<u8> {
    if recovers(bytes) {
        bytes.skip(1)
    } else {
        bytes
    }
}

/// Packet in a frame whose last byte is the delimiter, if there is one.
pub open spec fn unframed(frame: Seq<u8>) -> Option<Seq<u8>> {
    if frame.len() > 0 && cobs::zero_free(frame.drop_last()) {
        match cobs::cobs_decoded(frame.drop_last()) {
            Ok(packet) => Some(packet),
            Err(_) => None,
        }
    } else {
        None
    }
}

/// First key with a fingerprint.
pub open spec fn key_for(keys: Seq<DecryptionKey>, fingerprint: Seq<u8>) -> Option<DecryptionKey>
    decreases keys.len(),
{
    if keys.len() == 0 {
        None
    } else if keys::xhpke_fingerprint(keys::xhpke_public(keys[0])) == fingerprint {
        Some(keys[0])
    } else {
        key_for(keys.skip(1), fingerprint)
    }
}

/// Opens client output using the server keys saved in the transcript.
pub struct Peer {
    pub identity: VerifyingKey,  // Server identity key
    pub xhpke: Vec<DecryptionKey>,  // Server encryption keys, one per ArkHello
    pub signer: Option<VerifyingKey>,  // Client's signer key of the latest handshake
    pub receiver: Option<OpeningContext>,  // Context opening the client's requests
}

/// Receipt of an ack, or how it differs from the recorded output. Encryption may
/// change the bytes and their number, but not the recipient. A failed recording
/// can end within the frame, though the replayed one was accepted in full.
pub open spec fn ack_receipt(
    peer: Peer,
    recorded: Seq<u8>,
    packet: Seq<u8>,
    recipient: Seq<u8>,
    failed: bool,
) -> Result<Receipt, Mismatch> {
    let comparable = !failed || finished(recorded);
    if comparable && unframed(recorded) is None {
        Err(Mismatch::Undecodable)
    } else if comparable && envelope::cose_recipient(unframed(recorded)->0) != Some(recipient) {
        Err(Mismatch::Recipient)
    } else {
        match (key_for(peer.xhpke@, recipient), peer.signer) {
            (None, _) => Err(Mismatch::UnknownRecipient),
            (_, None) => Err(Mismatch::NoHandshake),
            (Some(key), Some(signer)) => match handshake::context_for(
                packet,
                key,
                signer,
                peer.identity,
            ) {
                Some(context) => Ok(Receipt::Installed(context)),
                None => Err(Mismatch::Ack),
            },
        }
    }
}

/// Receipt of a request, or how it differs from the message sent.
pub open spec fn request_receipt(
    peer: Peer,
    packet: Seq<u8>,
    request: Option<Seq<u8>>,
) -> Result<Receipt, Mismatch> {
    match peer.receiver {
        None => Err(Mismatch::NoAck),
        Some(receiver) => match sealing::message_of(
            sealing::receiver_context(receiver),
            sealing::receiver_sequence(receiver),
            packet,
        ) {
            None => Err(Mismatch::Request),
            Some(message) => if request == Some(message) {
                Ok(Receipt::Advanced)
            } else {
                Err(Mismatch::Message)
            },
        },
    }
}

/// Receipt of a complete frame, or how it differs from the recorded one. Neither
/// has a recovery delimiter anymore.
pub open spec fn frame_receipt(
    peer: Peer,
    recorded: Seq<u8>,
    actual: Seq<u8>,
    failed: bool,
    request: Option<Seq<u8>>,
) -> Result<Receipt, Mismatch> {
    match unframed(actual) {
        None => Err(Mismatch::Undecodable),
        Some(packet) => if handshake::hello_keys(packet) is Some {
            if actual == recorded {
                Ok(Receipt::Kept)
            } else {
                Err(Mismatch::Hello)
            }
        } else {
            match envelope::cose_recipient(packet) {
                Some(recipient) => ack_receipt(peer, recorded, packet, recipient, failed),
                None => request_receipt(peer, packet, request),
            }
        },
    }
}

/// Receipt of output, or how it differs from the recorded one. Unfinished output
/// requires a recorded failure or an exact recorded prefix. Signals and hellos
/// must match exactly. Every complete encrypted frame is opened, even when its
/// bytes match: an ack installs the receiving context, and requests advance it.
pub open spec fn receipt(
    peer: Peer,
    recorded: Seq<u8>,
    actual: Seq<u8>,
    failed: bool,
    request: Option<Seq<u8>>,
) -> Result<Receipt, Mismatch> {
    if !finished(actual) {
        if failed || recorded == actual {
            Ok(Receipt::Kept)
        } else {
            Err(Mismatch::Unfinished)
        }
    } else if all_delimiters(actual) {
        if actual == recorded {
            Ok(Receipt::Kept)
        } else {
            Err(Mismatch::Signal)
        }
    } else if recovers(actual) != recovers(recorded) {
        Err(Mismatch::Recovery)
    } else {
        frame_receipt(peer, recovered(recorded), recovered(actual), failed, request)
    }
}

/// What checking output does to a peer, and what comes out. The peer's context
/// advances past a request that opens, even to another message than the one sent.
pub open spec fn checks(
    before: Peer,
    after: Peer,
    receipt: Result<Receipt, Mismatch>,
    checked: Result<(), Mismatch>,
) -> bool {
    &&& after.identity == before.identity
    &&& after.xhpke == before.xhpke
    &&& after.signer == before.signer
    &&& match receipt {
        Ok(_) => checked is Ok,
        Err(mismatch) => checked == Err::<(), Mismatch>(mismatch),
    }
    &&& match receipt {
        Ok(Receipt::Installed(context)) => {
            &&& after.receiver matches Some(receiver)
            &&& sealing::receiver_context(receiver) == context
            &&& sealing::receiver_sequence(receiver) == 0
        },
        Ok(Receipt::Advanced) | Err(Mismatch::Message) => {
            &&& before.receiver matches Some(behind)
            &&& after.receiver matches Some(receiver)
            &&& sealing::receiver_context(receiver) == sealing::receiver_context(behind)
            &&& sealing::receiver_sequence(receiver) == sealing::receiver_sequence(behind) + 1
        },
        _ => {
            &&& after.receiver is Some == before.receiver is Some
            &&& before.receiver matches Some(behind) ==> {
                &&& sealing::receiver_context(after.receiver->0) == sealing::receiver_context(
                    behind,
                )
                &&& sealing::receiver_sequence(after.receiver->0) == sealing::receiver_sequence(
                    behind,
                )
            }
        },
    }
}

/// Whether every byte is a delimiter.
fn is_signal(bytes: &[u8]) -> (signal: bool)
    ensures
        signal == all_delimiters(bytes@),
{
    for i in 0..bytes.len()
        invariant
            forall|j: int| 0 <= j < i ==> bytes@[j] == 0,
    {
        if bytes[i] != 0 {
            return false;
        }
    }
    true
}

/// Output behind its recovery delimiter, if it starts with one.
fn skip_recovery(bytes: &[u8]) -> (rest: Vec<u8>)
    ensures
        rest@ == recovered(bytes@),
{
    if bytes.len() > 0 && bytes[0] == 0 {
        let rest = slice_to_vec(slice_subrange(bytes, 1, bytes.len()));
        assert(rest@ =~= bytes@.skip(1));
        rest
    } else {
        slice_to_vec(bytes)
    }
}

/// Packet in a frame whose last byte is the delimiter, if there is one.
fn unframe(frame: &Vec<u8>) -> (packet: Option<Vec<u8>>)
    ensures
        match packet {
            Some(packet) => unframed(frame@) == Some(packet@),
            None => unframed(frame@) is None,
        },
{
    if frame.len() == 0 {
        return None;
    }
    let size: usize = frame.len() - 1;
    let body = slice_subrange(frame.as_slice(), 0, size);
    assert(body@ =~= frame@.drop_last());
    for i in 0..size
        invariant
            body@.len() == size,
            body@ == frame@.drop_last(),
            forall|j: int| 0 <= j < i ==> body@[j] != 0,
    {
        if body[i] == 0 {
            assert(!cobs::zero_free(frame@.drop_last()));
            return None;
        }
    }
    match cobs::decode(body) {
        Ok(packet) => Some(packet),
        Err(_) => None,
    }
}

impl Peer {
    /// Loads the recorded server keys, with no client session established yet.
    /// Fails on an identity that is no key, and on seeds of another size than a
    /// key's.
    pub fn new(identity: &Vec<u8>, server_keys: &Vec<Vec<u8>>) -> (peer: Option<Peer>)
        ensures
            match peer {
                Some(peer) => {
                    &&& identity@.len() == keys::VERIFYING_KEY_SIZE
                    &&& keys::xdsa_parsed(identity@) == Some(peer.identity)
                    &&& peer.xhpke@.len() == server_keys@.len()
                    &&& forall|i: int|
                        0 <= i < server_keys@.len() ==> (#[trigger] server_keys@[i])@.len()
                            == keys::DECRYPTION_KEY_SIZE && peer.xhpke@[i] == keys::xhpke_seeded(
                            server_keys@[i]@,
                        )
                    &&& peer.signer is None
                    &&& peer.receiver is None
                },
                None => {
                    ||| identity@.len() != keys::VERIFYING_KEY_SIZE
                    ||| keys::xdsa_parsed(identity@) is None
                    ||| exists|i: int|
                        0 <= i < server_keys@.len() && (#[trigger] server_keys@[i])@.len()
                            != keys::DECRYPTION_KEY_SIZE
                },
            },
    {
        if identity.len() != keys::VERIFYING_KEY_SIZE {
            return None;
        }
        let identity = match keys::parse_verifying_key(identity.as_slice()) {
            Ok(identity) => identity,
            Err(_) => return None,
        };
        let mut xhpke: Vec<DecryptionKey> = Vec::new();
        for i in 0..server_keys.len()
            invariant
                xhpke@.len() == i,
                forall|j: int|
                    0 <= j < i ==> (#[trigger] server_keys@[j])@.len() == keys::DECRYPTION_KEY_SIZE
                        && xhpke@[j] == keys::xhpke_seeded(server_keys@[j]@),
        {
            if server_keys[i].len() != keys::DECRYPTION_KEY_SIZE {
                assert(server_keys@[i as int]@.len() != keys::DECRYPTION_KEY_SIZE);
                return None;
            }
            xhpke.push(keys::seed_decryption_key(server_keys[i].as_slice()));
        }
        Some(Peer { identity, xhpke, signer: None, receiver: None })
    }

    /// First of the server's keys with a fingerprint.
    fn find_key(&self, fingerprint: &Vec<u8>) -> (found: Option<&DecryptionKey>)
        ensures
            match found {
                Some(key) => key_for(self.xhpke@, fingerprint@) == Some(*key),
                None => key_for(self.xhpke@, fingerprint@) is None,
            },
    {
        assert(self.xhpke@.skip(0) =~= self.xhpke@);
        for i in 0..self.xhpke.len()
            invariant
                key_for(self.xhpke@, fingerprint@) == key_for(
                    self.xhpke@.skip(i as int),
                    fingerprint@,
                ),
        {
            assert(self.xhpke@.skip(i as int)[0] == self.xhpke@[i as int]);
            assert(self.xhpke@.skip(i as int).skip(1) =~= self.xhpke@.skip(i + 1));
            let own = keys::fingerprint(&self.xhpke[i].public_key());
            if same_bytes(&own, fingerprint) {
                return Some(&self.xhpke[i]);
            }
        }
        None
    }

    /// Checks an ack against the recorded output, and installs the context that it
    /// sets up.
    fn check_ack(
        &mut self,
        recorded: &Vec<u8>,
        packet: &Vec<u8>,
        fingerprint: &Vec<u8>,
        failed: bool,
    ) -> (checked: Result<(), Mismatch>)
        ensures
            checks(
                *old(self),
                *final(self),
                ack_receipt(*old(self), recorded@, packet@, fingerprint@, failed),
                checked,
            ),
    {
        if !failed || (recorded.len() > 0 && recorded[recorded.len() - 1] == 0) {
            let expected = match unframe(recorded) {
                Some(expected) => expected,
                None => return Err(Mismatch::Undecodable),
            };
            match envelope::recipient(expected.as_slice()) {
                Ok(recipient) => if !same_bytes(&recipient, fingerprint) {
                    return Err(Mismatch::Recipient);
                },
                Err(_) => return Err(Mismatch::Recipient),
            }
        }
        let opened = match self.find_key(fingerprint) {
            None => return Err(Mismatch::UnknownRecipient),
            Some(key) => match &self.signer {
                None => return Err(Mismatch::NoHandshake),
                Some(signer) => handshake::open_ack(key, signer, packet.as_slice(), &self.identity),
            },
        };
        match opened {
            Ok(receiver) => {
                self.receiver = Some(receiver);
                Ok(())
            },
            Err(_) => Err(Mismatch::Ack),
        }
    }

    /// Checks a request against the message sent, which advances the context.
    fn check_request(&mut self, packet: &Vec<u8>, request: Option<&Vec<u8>>) -> (checked: Result<
        (),
        Mismatch,
    >)
        ensures
            checks(
                *old(self),
                *final(self),
                request_receipt(
                    *old(self),
                    packet@,
                    match request {
                        Some(request) => Some(request@),
                        None => None,
                    },
                ),
                checked,
            ),
    {
        let mut receiver = match self.receiver.take() {
            Some(receiver) => receiver,
            None => return Err(Mismatch::NoAck),
        };
        let opened = sealing::open(&mut receiver, packet.as_slice());
        self.receiver = Some(receiver);
        match opened {
            Ok(message) => match request {
                Some(request) => if same_bytes(&message, request) {
                    Ok(())
                } else {
                    Err(Mismatch::Message)
                },
                None => Err(Mismatch::Message),
            },
            Err(_) => Err(Mismatch::Request),
        }
    }

    /// Checks client output against the recording. `request` is the message of a
    /// send call, if any.
    pub fn check(
        &mut self,
        recorded: &Vec<u8>,
        actual: &Vec<u8>,
        failed: bool,
        request: Option<&Vec<u8>>,
    ) -> (checked: Result<(), Mismatch>)
        ensures
            checks(
                *old(self),
                *final(self),
                receipt(
                    *old(self),
                    recorded@,
                    actual@,
                    failed,
                    match request {
                        Some(request) => Some(request@),
                        None => None,
                    },
                ),
                checked,
            ),
    {
        if actual.len() == 0 || actual[actual.len() - 1] != 0 {
            return if failed || same_bytes(recorded, actual) {
                Ok(())
            } else {
                Err(Mismatch::Unfinished)
            };
        }
        // Check signals before stripping recovery prefixes. Otherwise a reset
        // missing its second delimiter could look like an unfinished frame.
        if is_signal(actual.as_slice()) {
            return if same_bytes(actual, recorded) {
                Ok(())
            } else {
                Err(Mismatch::Signal)
            };
        }
        // A combined write has the recovery delimiter before its encoded frame.
        // Both representations identify the same packet.
        if (actual[0] == 0) != (recorded.len() > 0 && recorded[0] == 0) {
            return Err(Mismatch::Recovery);
        }
        let recorded = skip_recovery(recorded.as_slice());
        let actual = skip_recovery(actual.as_slice());
        let packet = match unframe(&actual) {
            Some(packet) => packet,
            None => return Err(Mismatch::Undecodable),
        };
        if handshake::read_hello(packet.as_slice()).is_ok() {
            return if same_bytes(&actual, &recorded) {
                Ok(())
            } else {
                Err(Mismatch::Hello)
            };
        }
        match envelope::recipient(packet.as_slice()) {
            Ok(fingerprint) => self.check_ack(&recorded, &packet, &fingerprint, failed),
            Err(_) => self.check_request(&packet, request),
        }
    }
}

/// Whether output is a complete frame, with the recovery delimiter of the recorded
/// output or with none as there, and what stands in front of its last delimiter is the
/// encoding of a packet.
pub open spec fn holds_packet(recorded: Seq<u8>, actual: Seq<u8>, packet: Seq<u8>) -> bool {
    &&& actual.len() > 1
    &&& actual.last() == 0
    &&& exists|i: int| 0 <= i < actual.len() && actual[i] != 0
    &&& (actual[0] == 0) == (recorded.len() > 0 && recorded[0] == 0)
    &&& ({
        let start: int = if actual[0] == 0 {
            1
        } else {
            0
        };
        let body = actual.subrange(start, actual.len() - 1);
        &&& cobs::zero_free(body)
        &&& cobs::cobs_decoded(body) == Ok::<Seq<u8>, darkbio_cobs::DecodeError>(packet)
    })
}

/// The packet of a complete frame is what the frame is checked by.
proof fn lemma_holds_packet(recorded: Seq<u8>, actual: Seq<u8>, packet: Seq<u8>)
    requires
        holds_packet(recorded, actual, packet),
    ensures
        finished(actual),
        !all_delimiters(actual),
        recovers(actual) == recovers(recorded),
        unframed(recovered(actual)) == Some(packet),
{
    let frame = recovered(actual);
    let start: int = if actual[0] == 0 {
        1
    } else {
        0
    };
    let body = actual.subrange(start, actual.len() - 1);
    assert(frame.drop_last() =~= body);
}

/// A request is checked by the message in it, byte for byte: it passes exactly if it
/// opens at the peer's position to the very message sent. One that opens to anything else
/// is told apart from one that does not open, and both from one that precedes any ack.
pub proof fn law_request_is_compared(
    before: Peer,
    after: Peer,
    recorded: Seq<u8>,
    actual: Seq<u8>,
    failed: bool,
    request: Option<Seq<u8>>,
    packet: Seq<u8>,
    checked: Result<(), Mismatch>,
)
    requires
        checks(before, after, receipt(before, recorded, actual, failed, request), checked),
        holds_packet(recorded, actual, packet),
        handshake::hello_keys(packet) is None,
        envelope::cose_recipient(packet) is None,
    ensures
        match before.receiver {
            Some(receiver) => {
                let opened = sealing::message_of(
                    sealing::receiver_context(receiver),
                    sealing::receiver_sequence(receiver),
                    packet,
                );
                &&& checked is Ok <==> opened is Some && request == opened
                &&& opened is Some && request != opened ==> checked == Err::<(), Mismatch>(
                    Mismatch::Message,
                )
                &&& opened is None ==> checked == Err::<(), Mismatch>(Mismatch::Request)
                &&& after.receiver matches Some(next)
                &&& sealing::receiver_context(next) == sealing::receiver_context(receiver)
                &&& sealing::receiver_sequence(next) == sealing::receiver_sequence(receiver) + (
                if opened is Some {
                    1int
                } else {
                    0int
                })
            },
            None => checked == Err::<(), Mismatch>(Mismatch::NoAck) && after.receiver is None,
        },
{
    lemma_holds_packet(recorded, actual, packet);
}

/// Output is known by what is behind its recovery delimiter and by whether it has one.
proof fn lemma_recovered(left: Seq<u8>, right: Seq<u8>)
    requires
        recovers(left) == recovers(right),
        recovered(left) == recovered(right),
    ensures
        left == right,
{
    if recovers(left) {
        assert(left =~= seq![0u8] + left.skip(1));
        assert(right =~= seq![0u8] + right.skip(1));
    }
}

/// A hello passes exactly if its bytes are the recorded ones, and never touches the
/// peer's position.
pub proof fn law_hello_is_compared(
    before: Peer,
    after: Peer,
    recorded: Seq<u8>,
    actual: Seq<u8>,
    failed: bool,
    request: Option<Seq<u8>>,
    packet: Seq<u8>,
    checked: Result<(), Mismatch>,
)
    requires
        checks(before, after, receipt(before, recorded, actual, failed, request), checked),
        holds_packet(recorded, actual, packet),
        handshake::hello_keys(packet) is Some,
    ensures
        checked is Ok <==> actual == recorded,
        actual != recorded ==> checked == Err::<(), Mismatch>(Mismatch::Hello),
        after.receiver is Some == before.receiver is Some,
        before.receiver matches Some(receiver) ==> {
            &&& sealing::receiver_context(after.receiver->0) == sealing::receiver_context(receiver)
            &&& sealing::receiver_sequence(after.receiver->0) == sealing::receiver_sequence(
                receiver,
            )
        },
{
    lemma_holds_packet(recorded, actual, packet);
    if recovered(actual) == recovered(recorded) {
        lemma_recovered(actual, recorded);
    }
}

/// A key found has the fingerprint asked for, and no key in front of it has. A
/// fingerprint is unknown only if none of the keys has it.
pub proof fn law_key_is_found(keys: Seq<DecryptionKey>, fingerprint: Seq<u8>)
    ensures
        match key_for(keys, fingerprint) {
            Some(key) => exists|i: int|
                0 <= i < keys.len() && #[trigger] keys[i] == key && keys::xhpke_fingerprint(
                    keys::xhpke_public(keys[i]),
                ) == fingerprint && forall|j: int|
                    0 <= j < i ==> keys::xhpke_fingerprint(
                        keys::xhpke_public(#[trigger] keys[j]),
                    ) != fingerprint,
            None => forall|i: int|
                0 <= i < keys.len() ==> keys::xhpke_fingerprint(
                    keys::xhpke_public(#[trigger] keys[i]),
                ) != fingerprint,
        },
    decreases keys.len(),
{
    if keys.len() > 0 && keys::xhpke_fingerprint(keys::xhpke_public(keys[0])) != fingerprint {
        let rest = keys.skip(1);
        law_key_is_found(rest, fingerprint);
        match key_for(rest, fingerprint) {
            Some(key) => {
                let i = choose|i: int|
                    0 <= i < rest.len() && #[trigger] rest[i] == key && keys::xhpke_fingerprint(
                        keys::xhpke_public(rest[i]),
                    ) == fingerprint && forall|j: int|
                        0 <= j < i ==> keys::xhpke_fingerprint(
                            keys::xhpke_public(#[trigger] rest[j]),
                        ) != fingerprint;
                assert(keys[i + 1] == key);
                assert forall|j: int| 0 <= j < i + 1 implies keys::xhpke_fingerprint(
                    keys::xhpke_public(#[trigger] keys[j]),
                ) != fingerprint by {
                    if j > 0 {
                        assert(keys[j] == rest[j - 1]);
                    }
                }
            },
            None => {
                assert forall|i: int| 0 <= i < keys.len() implies keys::xhpke_fingerprint(
                    keys::xhpke_public(#[trigger] keys[i]),
                ) != fingerprint by {
                    if i > 0 {
                        assert(keys[i] == rest[i - 1]);
                    }
                }
            },
        }
    }
}

/// An ack passes exactly if it is sealed to the key that the recorded one is sealed to,
/// that key is one of the server's, and it opens with it under the signer of the latest
/// handshake. Only a failed recording that ends within the frame leaves the recipient
/// uncompared. The peer then stands at the start of the session that the ack sets up.
pub proof fn law_ack_is_compared(
    before: Peer,
    after: Peer,
    recorded: Seq<u8>,
    actual: Seq<u8>,
    failed: bool,
    request: Option<Seq<u8>>,
    packet: Seq<u8>,
    recipient: Seq<u8>,
    checked: Result<(), Mismatch>,
)
    requires
        checks(before, after, receipt(before, recorded, actual, failed, request), checked),
        holds_packet(recorded, actual, packet),
        handshake::hello_keys(packet) is None,
        envelope::cose_recipient(packet) == Some(recipient),
    ensures
        checked is Ok ==> {
            &&& before.signer matches Some(signer)
            &&& exists|i: int|
                0 <= i < before.xhpke@.len() && keys::xhpke_fingerprint(
                    keys::xhpke_public(#[trigger] before.xhpke@[i]),
                ) == recipient && handshake::context_for(
                    packet,
                    before.xhpke@[i],
                    signer,
                    before.identity,
                ) == Some(sealing::receiver_context(after.receiver->0))
            &&& after.receiver is Some
            &&& sealing::receiver_sequence(after.receiver->0) == 0
        },
        forall|expected: Seq<u8>|
            checked is Ok && #[trigger] holds_packet(actual, recorded, expected)
                ==> envelope::cose_recipient(expected) == Some(recipient),
        (forall|i: int|
            0 <= i < before.xhpke@.len() ==> keys::xhpke_fingerprint(
                keys::xhpke_public(#[trigger] before.xhpke@[i]),
            ) != recipient) ==> checked is Err,
{
    lemma_holds_packet(recorded, actual, packet);
    law_key_is_found(before.xhpke@, recipient);
    assert forall|expected: Seq<u8>|
        checked is Ok && #[trigger] holds_packet(
            actual,
            recorded,
            expected,
        ) implies envelope::cose_recipient(expected) == Some(recipient) by {
        lemma_holds_packet(actual, recorded, expected);
    }
}

/// Signals and unfinished output pass only as they were recorded, but for output that a
/// recorded failure cut short. None of it touches the peer's position.
pub proof fn law_plain_output_is_compared(
    before: Peer,
    after: Peer,
    recorded: Seq<u8>,
    actual: Seq<u8>,
    failed: bool,
    request: Option<Seq<u8>>,
    checked: Result<(), Mismatch>,
)
    requires
        checks(before, after, receipt(before, recorded, actual, failed, request), checked),
        actual.len() == 0 || actual.last() != 0 || forall|i: int|
            0 <= i < actual.len() ==> actual[i] == 0,
    ensures
        actual.len() > 0 && actual.last() == 0 ==> {
            &&& checked is Ok <==> actual == recorded
            &&& actual != recorded ==> checked == Err::<(), Mismatch>(Mismatch::Signal)
        },
        actual.len() == 0 || actual.last() != 0 ==> {
            &&& checked is Ok <==> failed || actual == recorded
            &&& !failed && actual != recorded ==> checked == Err::<(), Mismatch>(
                Mismatch::Unfinished,
            )
        },
        after.receiver is Some == before.receiver is Some,
        before.receiver matches Some(receiver) ==> {
            &&& sealing::receiver_context(after.receiver->0) == sealing::receiver_context(receiver)
            &&& sealing::receiver_sequence(after.receiver->0) == sealing::receiver_sequence(
                receiver,
            )
        },
{
}

/// A peer has every key that was recorded, in order, and the recorded identity, as long as
/// they are keys at all. It starts without a client.
pub proof fn law_peer_has_every_key(
    identity: Vec<u8>,
    server_keys: Vec<Vec<u8>>,
    peer: Option<Peer>,
)
    requires
        call_ensures(Peer::new, (&identity, &server_keys), peer),
    ensures
        peer is Some <==> {
            &&& identity@.len() == keys::VERIFYING_KEY_SIZE
            &&& keys::xdsa_parsed(identity@) is Some
            &&& forall|i: int|
                0 <= i < server_keys@.len() ==> (#[trigger] server_keys@[i])@.len()
                    == keys::DECRYPTION_KEY_SIZE
        },
        peer matches Some(peer) ==> {
            &&& Some(peer.identity) == keys::xdsa_parsed(identity@)
            &&& peer.xhpke@.len() == server_keys@.len()
            &&& forall|i: int|
                0 <= i < server_keys@.len() ==> #[trigger] peer.xhpke@[i] == keys::xhpke_seeded(
                    server_keys@[i]@,
                )
            &&& peer.signer is None
            &&& peer.receiver is None
        },
{
}

} // verus!
