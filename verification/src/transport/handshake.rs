//! The session handshake, its three messages as both sides make and read them:
//!
//!   1. Client -> Server: HostHello { host_signer, host_crypto }           (plain)
//!   2. Server -> Client: ArkHello  { ark_attest, ark_crypto, a2h_encap }  (sealed)
//!   3. Client -> Server: HostAck   { h2a_encap }                          (sealed)
//!
//! Each message is a list of byte strings. The sealed ones authenticate the keys
//! of the message they answer: the ArkHello those of the HostHello, the HostAck
//! the server's identity and the encryption key of the ArkHello.

use darkbio_crypto::xdsa::{PublicKey as VerifyingKey, SecretKey as SigningKey};
use darkbio_crypto::xhpke::{
    PublicKey as EncryptionKey, Receiver as OpeningContext, SecretKey as DecryptionKey,
    Sender as SealingContext,
};
use vstd::prelude::*;
use vstd::slice::slice_to_vec;

use super::attestation;
use super::attestation::Attestation;
use super::cobs;
use super::envelope;
use super::framing;
use super::framing::{Arrival, Item};
use super::keys;
use super::sealing;
use super::session::Session;
use super::trust::Verifier;
use super::{Error, MAX_FRAME_SIZE};
use crate::bytes::same_bytes;

verus! {

/// Domain separator for the sealed messages of the handshake. It binds their
/// signatures and encryption to the wire, so a handshake signed by the server's
/// identity key cannot be replayed into other protocols using the same key.
pub const CRYPTO_DOMAIN_WIRE: &'static str = "wire-v1";

/// Domain separator for the server-to-client encryption of a session.
pub const CRYPTO_DOMAIN_WIRE_ARK_TO_HOST: &'static str = "wire-v1:ark-to-host";

/// Domain separator for the client-to-server encryption of a session.
pub const CRYPTO_DOMAIN_WIRE_HOST_TO_ARK: &'static str = "wire-v1:host-to-ark";

/// Most bytes that an encoded pair of keys takes.
pub const MAX_PAIR_SIZE: usize = 3227;

/// Most bytes that an ArkHello adds to the attestation in it: the encryption key, the
/// encapsulated key and the headers around them, in an envelope.
pub const HELLO_OVERHEAD: usize = 10564;

/// Most bytes that a HostAck takes: the encapsulated key and the headers around it, in
/// an envelope.
pub const MAX_ACK_SIZE: usize = 9330;

/// The domains are short enough to set up contexts under.
pub proof fn lemma_domains()
    ensures
        CRYPTO_DOMAIN_WIRE@.len() <= keys::MAX_DOMAIN_SIZE,
        CRYPTO_DOMAIN_WIRE_ARK_TO_HOST@.len() <= keys::MAX_DOMAIN_SIZE,
        CRYPTO_DOMAIN_WIRE_HOST_TO_ARK@.len() <= keys::MAX_DOMAIN_SIZE,
{
    reveal_strlit("wire-v1");
    reveal_strlit("wire-v1:ark-to-host");
    reveal_strlit("wire-v1:host-to-ark");
}

/// Refusal of a handshake for a reason, followed by the detail of what failed.
pub open spec fn refused(error: Error, reason: Seq<char>) -> bool {
    error matches Error::HandshakeFailed(message) && reason.is_prefix_of(message@)
}

/// Makes the refusal of a handshake from a reason and a detail.
pub fn refusal(reason: &str, detail: &str) -> (error: Error)
    ensures
        error matches Error::HandshakeFailed(message) && message@ == reason@ + detail@,
        refused(error, reason@),
{
    let mut message = String::from_str(reason);
    message.append(detail);
    assert((reason@ + detail@).take(reason@.len() as int) =~= reason@);
    Error::HandshakeFailed(message)
}

/// List of a signing key's and an encryption key's encodings.
pub open spec fn key_list(signer: VerifyingKey, crypto: EncryptionKey) -> Seq<Seq<u8>> {
    seq![keys::xdsa_bytes(signer), keys::xhpke_bytes(crypto)]
}

/// Encoded pair of keys: the HostHello, and the text that the sealed messages
/// authenticate.
pub open spec fn key_pair(signer: VerifyingKey, crypto: EncryptionKey) -> Seq<u8> {
    envelope::cbor_list(key_list(signer, crypto))
}

/// Encodes a pair of keys.
pub fn encode_keys(signer: &VerifyingKey, crypto: &EncryptionKey) -> (encoded: Vec<u8>)
    ensures
        encoded@ == key_pair(*signer, *crypto),
        hello_keys(encoded@) == Some((*signer, *crypto)),
        encoded@.len() <= MAX_PAIR_SIZE,
{
    let mut items: Vec<Vec<u8>> = Vec::new();
    items.push(keys::verifying_key_bytes(signer));
    items.push(keys::encryption_key_bytes(crypto));
    assert(envelope::contents(items@) =~= key_list(*signer, *crypto));
    let ghost list = envelope::contents(items@);
    assert(list[0] == items@[0]@ && list[1] == items@[1]@);
    proof {
        reveal_with_fuel(envelope::list_bound, 3);
        assert(list.drop_last() =~= seq![items@[0]@]);
        assert(list.drop_last().drop_last() =~= Seq::<Seq<u8>>::empty());
    }
    envelope::encode_list(items)
}

/// Pair of keys that a packet announces, if it is a HostHello.
pub open spec fn hello_keys(packet: Seq<u8>) -> Option<(VerifyingKey, EncryptionKey)> {
    match envelope::cbor_listed(packet) {
        Some(items) => if items.len() == 2 && items[0].len() == keys::VERIFYING_KEY_SIZE
            && items[1].len() == keys::ENCRYPTION_KEY_SIZE {
            match (keys::xdsa_parsed(items[0]), keys::xhpke_parsed(items[1])) {
                (Some(signer), Some(crypto)) => Some((signer, crypto)),
                _ => None,
            }
        } else {
            None
        },
        None => None,
    }
}

/// Reads the HostHello, refusing anything that is not a pair of valid keys.
pub fn read_hello(packet: &[u8]) -> (hello: Result<(VerifyingKey, EncryptionKey), Error>)
    ensures
        match hello {
            Ok(hello) => hello_keys(packet@) == Some(hello),
            Err(err) => hello_keys(packet@) is None && refused(err, "invalid client hello: "@),
        },
        packet@.len() < keys::VERIFYING_KEY_SIZE ==> hello is Err,
{
    let items = match envelope::decode_list(packet) {
        Ok(items) => items,
        Err(err) => return Err(refusal("invalid client hello: ", err.to_string().as_str())),
    };
    assert(envelope::contents(items@).len() == items@.len());
    assert(forall|i: int|
        0 <= i < items@.len() ==> envelope::contents(items@)[i] == (#[trigger] items@[i])@);
    if items.len() != 2 || items[0].len() != keys::VERIFYING_KEY_SIZE || items[1].len()
        != keys::ENCRYPTION_KEY_SIZE {
        return Err(refusal("invalid client hello: ", "not a pair of keys"));
    }
    let signer = match keys::parse_verifying_key(items[0].as_slice()) {
        Ok(signer) => signer,
        Err(err) => return Err(refusal("invalid client hello: ", err.to_string().as_str())),
    };
    let crypto = match keys::parse_encryption_key(items[1].as_slice()) {
        Ok(crypto) => crypto,
        Err(err) => return Err(refusal("invalid client hello: ", err.to_string().as_str())),
    };
    Ok((signer, crypto))
}

/// Payload of the ArkHello.
pub open spec fn ark_hello(
    attest: Seq<u8>,
    crypto: EncryptionKey,
    encap: Seq<u8>,
) -> Seq<u8> {
    envelope::cbor_list(seq![attest, keys::xhpke_bytes(crypto), encap])
}

/// Encodes the payload of the ArkHello.
pub fn encode_ark_hello(attest: Vec<u8>, crypto: &EncryptionKey, encap: Vec<u8>) -> (encoded: Vec<
    u8,
>)
    ensures
        encoded@ == ark_hello(attest@, *crypto, encap@),
        hello_parts(encoded@) == Some((attest@, *crypto, encap@)),
        attest@.len() <= encoded@.len(),
        encoded@.len() <= attest@.len() + keys::ENCRYPTION_KEY_SIZE + encap@.len() + 36,
{
    let ghost list = seq![attest@, keys::xhpke_bytes(*crypto), encap@];
    proof {
        reveal_with_fuel(envelope::list_bound, 4);
        assert(list.drop_last() =~= seq![attest@, keys::xhpke_bytes(*crypto)]);
        assert(list.drop_last().drop_last() =~= seq![attest@]);
        assert(list.drop_last().drop_last().drop_last() =~= Seq::<Seq<u8>>::empty());
    }
    let mut items: Vec<Vec<u8>> = Vec::new();
    items.push(attest);
    items.push(keys::encryption_key_bytes(crypto));
    items.push(encap);
    assert(envelope::contents(items@) =~= list);
    assert(list[0] == items@[0]@ && list[1] == items@[1]@);
    envelope::encode_list(items)
}

/// Seals an encoded payload, at the given time or else at the current one.
pub fn seal_message(
    payload: Vec<u8>,
    auth: Vec<u8>,
    signer: &SigningKey,
    recipient: &EncryptionKey,
    timestamp: Option<i64>,
) -> (packet: Result<Vec<u8>, String>)
    ensures
        payload@.len() <= u32::MAX ==> packet is Ok,
        packet matches Ok(packet) ==> envelope::sealed(
            packet@,
            payload@,
            auth@,
            *signer,
            *recipient,
            CRYPTO_DOMAIN_WIRE@,
            timestamp,
        ),
{
    proof {
        lemma_domains();
    }
    let sealed = match timestamp {
        Some(timestamp) => envelope::seal_at(
            payload,
            auth,
            signer,
            recipient,
            CRYPTO_DOMAIN_WIRE,
            timestamp,
        ),
        None => envelope::seal(payload, auth, signer, recipient, CRYPTO_DOMAIN_WIRE),
    };
    match sealed {
        Ok(packet) => Ok(packet),
        Err(err) => Err(err.to_string()),
    }
}

/// Server's side of a handshake whose ArkHello went out, awaiting the HostAck.
pub struct Pending {
    pub host_signer: VerifyingKey,  // Key that has to sign the HostAck
    pub key: DecryptionKey,  // Ephemeral key announced in the ArkHello
    pub sender: SealingContext,  // Server-to-client context announced in it
}

impl Pending {
    /// Whether a packet is the ArkHello that this side awaits the answer to: it
    /// presents the attestation and the announced contexts, is signed by the
    /// server, and is sealed to the keys of the HostHello it answers.
    pub open spec fn announced(
        self,
        packet: Seq<u8>,
        attest: Seq<u8>,
        signer: SigningKey,
        crypto: EncryptionKey,
        timestamp: Option<i64>,
    ) -> bool {
        let encap = keys::sender_encap(self.sender);
        let payload = ark_hello(attest, keys::xhpke_public(self.key), encap);
        &&& envelope::sealed(
            packet,
            payload,
            key_pair(self.host_signer, crypto),
            signer,
            crypto,
            CRYPTO_DOMAIN_WIRE@,
            timestamp,
        )
        &&& hello_parts(payload) == Some((attest, keys::xhpke_public(self.key), encap))
        &&& attest.len() <= packet.len() <= attest.len() + HELLO_OVERHEAD
        &&& encap.len() == keys::ENCAP_KEY_SIZE
        &&& keys::xhpke_set_up(self.sender, crypto, CRYPTO_DOMAIN_WIRE_ARK_TO_HOST@)
        &&& sealing::sender_sequence(self.sender) == 0
    }
}

/// Refusal of a handshake whose answer could not be sealed, the attestation being
/// too long for any frame.
pub open spec fn unanswered(attest: Seq<u8>, error: Error) -> bool {
    &&& attestation::device_token(attest)
    &&& attest.len() > MAX_FRAME_SIZE
    &&& refused(error, "failed to seal server hello: "@)
}

/// Whether an attestation makes an answer to a hello's key that fits no frame.
pub open spec fn unwieldy(
    attest: Seq<u8>,
    signer: SigningKey,
    crypto: EncryptionKey,
    timestamp: Option<i64>,
) -> bool {
    ||| attest.len() > MAX_FRAME_SIZE
    ||| exists|pending: Pending, packet: Seq<u8>|
        {
            &&& #[trigger] pending.announced(packet, attest, signer, crypto, timestamp)
            &&& cobs::encoded_bound(packet.len() as int) > MAX_FRAME_SIZE
        }
}

/// Every hello is answered, as long as the attestation leaves room for the rest of the
/// answer in a frame.
pub proof fn law_attestation_fits(
    attest: Seq<u8>,
    signer: SigningKey,
    crypto: EncryptionKey,
    timestamp: Option<i64>,
)
    requires
        cobs::encoded_bound(attest.len() + HELLO_OVERHEAD) <= MAX_FRAME_SIZE,
    ensures
        !unwieldy(attest, signer, crypto, timestamp),
{
}

/// No ArkHello that presents an attestation as long as a frame fits one.
pub proof fn law_attestation_too_long(
    pending: Pending,
    packet: Seq<u8>,
    attest: Seq<u8>,
    signer: SigningKey,
    crypto: EncryptionKey,
    timestamp: Option<i64>,
)
    requires
        pending.announced(packet, attest, signer, crypto, timestamp),
        attest.len() >= MAX_FRAME_SIZE,
    ensures
        cobs::encoded_bound(packet.len() as int) > MAX_FRAME_SIZE,
{
}

/// An attestation of ordinary length leaves room for the rest of every answer.
pub proof fn lemma_attestations_fit(attest: Seq<u8>, signer: SigningKey, timestamp: Option<i64>)
    requires
        attest.len() <= 8192,
    ensures
        forall|crypto: EncryptionKey| !#[trigger] unwieldy(attest, signer, crypto, timestamp),
{
    assert forall|crypto: EncryptionKey|
        !#[trigger] unwieldy(attest, signer, crypto, timestamp) by {
        law_attestation_fits(attest, signer, crypto, timestamp);
    }
}

/// Makes the ArkHello that answers the keys of a HostHello, under fresh keys of
/// the server's.
pub fn answer_keys(
    hello: (VerifyingKey, EncryptionKey),
    signer: &SigningKey,
    attestation: Attestation,
    timestamp: Option<i64>,
) -> (answer: Result<(Pending, Vec<u8>), Error>)
    ensures
        match answer {
            Ok(answer) => {
                &&& answer.0.host_signer == hello.0
                &&& answer.0.announced(answer.1@, attestation@, *signer, hello.1, timestamp)
                &&& attestation::device_token(attestation@)
            },
            Err(err) => unanswered(attestation@, err),
        },
{
    proof {
        lemma_domains();
    }
    let (host_signer, host_crypto) = hello;
    let key = DecryptionKey::generate();
    let public = key.public_key();
    let (sender, encap) = match keys::new_sender(&host_crypto, CRYPTO_DOMAIN_WIRE_ARK_TO_HOST) {
        Ok(context) => context,
        Err(err) => return Err(
            refusal("server sender setup failed: ", err.to_string().as_str()),
        ),
    };
    // Seal the ArkHello to the keys of the hello
    let payload = encode_ark_hello(attestation.into_bytes(), &public, encap);
    assert(hello_parts(payload@) is Some ==> envelope::cbor_listed(payload@) is Some);
    let auth = encode_keys(&host_signer, &host_crypto);
    match seal_message(payload, auth, signer, &host_crypto, timestamp) {
        Ok(sealed) => Ok((Pending { host_signer, key, sender }, sealed)),
        Err(err) => Err(refusal("failed to seal server hello: ", err.as_str())),
    }
}

/// Encapsulated key in a HostAck that a client signed and sealed to a key of the
/// server's, together with the server's identity, if the packet is one.
pub open spec fn encap_for(
    packet: Seq<u8>,
    key: DecryptionKey,
    signer: VerifyingKey,
    identity: VerifyingKey,
) -> Option<Seq<u8>> {
    match envelope::cose_opened(
        packet,
        key_pair(identity, keys::xhpke_public(key)),
        key,
        signer,
        CRYPTO_DOMAIN_WIRE@,
    ) {
        Some(payload) => match envelope::cbor_listed(payload) {
            Some(items) => if items.len() == 1 {
                Some(items[0])
            } else {
                None
            },
            None => None,
        },
        None => None,
    }
}

/// Key material of the client-to-server context that such a HostAck sets up, if it
/// does.
pub open spec fn context_for(
    packet: Seq<u8>,
    key: DecryptionKey,
    signer: VerifyingKey,
    identity: VerifyingKey,
) -> Option<Seq<u8>> {
    match encap_for(packet, key, signer, identity) {
        Some(encap) => if encap.len() == keys::ENCAP_KEY_SIZE {
            Some(keys::xhpke_received(key, encap, CRYPTO_DOMAIN_WIRE_HOST_TO_ARK@))
        } else {
            None
        },
        None => None,
    }
}

/// Encapsulated key in a HostAck that answers the ArkHello of a pending
/// handshake, if the packet is one.
pub open spec fn ack_encap(
    packet: Seq<u8>,
    pending: Pending,
    identity: VerifyingKey,
) -> Option<Seq<u8>> {
    encap_for(packet, pending.key, pending.host_signer, identity)
}

/// Key material of the client-to-server context that a HostAck sets up, if it
/// completes the pending handshake.
pub open spec fn ack_context(
    packet: Seq<u8>,
    pending: Pending,
    identity: VerifyingKey,
) -> Option<Seq<u8>> {
    context_for(packet, pending.key, pending.host_signer, identity)
}

/// Reads a HostAck that a client signed and sealed to a key of the server's, and
/// sets up the client-to-server receiver. Anything else is refused, for the first
/// reason that applies.
pub fn open_ack(
    key: &DecryptionKey,
    signer: &VerifyingKey,
    packet: &[u8],
    identity: &VerifyingKey,
) -> (opened: Result<OpeningContext, Error>)
    ensures
        match opened {
            Ok(receiver) => {
                &&& context_for(packet@, *key, *signer, *identity) == Some(
                    sealing::receiver_context(receiver),
                )
                &&& sealing::receiver_sequence(receiver) == 0
            },
            Err(err) => {
                &&& context_for(packet@, *key, *signer, *identity) is None
                &&& match encap_for(packet@, *key, *signer, *identity) {
                    None => refused(err, "invalid client ack: "@),
                    Some(encap) => {
                        &&& encap.len() != keys::ENCAP_KEY_SIZE
                        &&& refused(err, "invalid h2a_encap size"@)
                    },
                }
            },
        },
{
    proof {
        lemma_domains();
    }
    let auth = encode_keys(identity, &key.public_key());
    let payload = match envelope::open(packet, auth, key, signer, CRYPTO_DOMAIN_WIRE) {
        Ok(payload) => payload,
        Err(err) => return Err(refusal("invalid client ack: ", err.to_string().as_str())),
    };
    let items = match envelope::decode_list(payload.as_slice()) {
        Ok(items) => items,
        Err(err) => return Err(refusal("invalid client ack: ", err.to_string().as_str())),
    };
    assert(envelope::contents(items@).len() == items@.len());
    if items.len() != 1 {
        return Err(refusal("invalid client ack: ", "not a single key"));
    }
    assert(envelope::contents(items@)[0] == items@[0]@);
    let encap = items[0].as_slice();
    if encap.len() != keys::ENCAP_KEY_SIZE {
        return Err(refusal("invalid h2a_encap size", ""));
    }
    match keys::new_receiver(key, encap, CRYPTO_DOMAIN_WIRE_HOST_TO_ARK) {
        Ok(receiver) => Ok(receiver),
        Err(err) => Err(refusal("server receiver setup failed: ", err.to_string().as_str())),
    }
}

/// Reads the HostAck and opens the session it completes. Anything else is refused,
/// for the first reason that applies.
pub fn accept_ack(pending: Pending, packet: &[u8], identity: &VerifyingKey) -> (accepted: Result<
    Session,
    Error,
>)
    ensures
        match accepted {
            Ok(session) => {
                &&& ack_context(packet@, pending, *identity) == Some(
                    sealing::receiver_context(session.receiver),
                )
                &&& sealing::receiver_sequence(session.receiver) == 0
                &&& session.sender == pending.sender
            },
            Err(err) => {
                &&& ack_context(packet@, pending, *identity) is None
                &&& match ack_encap(packet@, pending, *identity) {
                    None => refused(err, "invalid client ack: "@),
                    Some(encap) => {
                        &&& encap.len() != keys::ENCAP_KEY_SIZE
                        &&& refused(err, "invalid h2a_encap size"@)
                    },
                }
            },
        },
{
    match open_ack(&pending.key, &pending.host_signer, packet, identity) {
        Ok(receiver) => Ok(Session { sender: pending.sender, receiver }),
        Err(err) => Err(err),
    }
}

/// What the owner of a hello calls the side that answers it.
#[derive(Clone, Copy, Debug, PartialEq, Eq, Structural)]
pub enum Answerer {
    Server,
    Ark,
}

impl Answerer {
    /// Refusal of an answer that does not decrypt.
    pub open spec fn undecrypted(self) -> Seq<char> {
        match self {
            Answerer::Server => "failed to decrypt server hello: "@,
            Answerer::Ark => "failed to decrypt ark hello: "@,
        }
    }

    /// Refusal of an answer that holds something else than an ArkHello.
    pub open spec fn malformed(self) -> Seq<char> {
        match self {
            Answerer::Server => "invalid server hello payload: "@,
            Answerer::Ark => "invalid ark hello payload: "@,
        }
    }

    /// Refusal of an answer that is not the identity's.
    pub open spec fn unverified(self) -> Seq<char> {
        match self {
            Answerer::Server => "server hello signature invalid: "@,
            Answerer::Ark => "ark hello signature invalid: "@,
        }
    }

    /// Refuses an answer that does not decrypt.
    fn refuse_undecrypted(self, detail: &str) -> (error: Error)
        ensures
            refused(error, self.undecrypted()),
    {
        match self {
            Answerer::Server => refusal("failed to decrypt server hello: ", detail),
            Answerer::Ark => refusal("failed to decrypt ark hello: ", detail),
        }
    }

    /// Refuses an answer that holds something else than an ArkHello.
    fn refuse_malformed(self, detail: &str) -> (error: Error)
        ensures
            refused(error, self.malformed()),
    {
        match self {
            Answerer::Server => refusal("invalid server hello payload: ", detail),
            Answerer::Ark => refusal("invalid ark hello payload: ", detail),
        }
    }

    /// Refuses an answer that is not the identity's.
    fn refuse_unverified(self, detail: &str) -> (error: Error)
        ensures
            refused(error, self.unverified()),
    {
        match self {
            Answerer::Server => refusal("server hello signature invalid: ", detail),
            Answerer::Ark => refusal("ark hello signature invalid: ", detail),
        }
    }
}

/// Ephemeral keys of a HostHello.
pub struct HelloKeys {
    pub signer: SigningKey,
    pub crypto: DecryptionKey,
}

impl Clone for HelloKeys {
    fn clone(&self) -> (copied: HelloKeys)
        ensures
            copied == *self,
    {
        HelloKeys { signer: self.signer.clone(), crypto: self.crypto.clone() }
    }
}

/// Contents of an ArkHello's payload: the attestation, the server's encryption
/// key and the encapsulated key.
pub open spec fn hello_parts(payload: Seq<u8>) -> Option<(Seq<u8>, EncryptionKey, Seq<u8>)> {
    match envelope::cbor_listed(payload) {
        Some(items) => if items.len() == 3 && items[1].len() == keys::ENCRYPTION_KEY_SIZE {
            match keys::xhpke_parsed(items[1]) {
                Some(crypto) => Some((items[0], crypto, items[2])),
                None => None,
            }
        } else {
            None
        },
        None => None,
    }
}

/// Reads the payload of an ArkHello.
fn read_parts(payload: &[u8]) -> (parts: Result<(Vec<u8>, EncryptionKey, Vec<u8>), String>)
    ensures
        match parts {
            Ok(parts) => hello_parts(payload@) == Some((parts.0@, parts.1, parts.2@)),
            Err(_) => hello_parts(payload@) is None,
        },
{
    let items = match envelope::decode_list(payload) {
        Ok(items) => items,
        Err(err) => return Err(err.to_string()),
    };
    assert(envelope::contents(items@).len() == items@.len());
    assert(forall|i: int|
        0 <= i < items@.len() ==> envelope::contents(items@)[i] == (#[trigger] items@[i])@);
    if items.len() != 3 || items[1].len() != keys::ENCRYPTION_KEY_SIZE {
        return Err(String::from_str("not an attestation and two keys"));
    }
    match keys::parse_encryption_key(items[1].as_slice()) {
        Ok(crypto) => Ok(
            (slice_to_vec(items[0].as_slice()), crypto, slice_to_vec(items[2].as_slice())),
        ),
        Err(err) => Err(err.to_string()),
    }
}

/// Signed message in an ArkHello that answers the keys' HostHello, if it decrypts.
pub open spec fn answer_signed(packet: Seq<u8>, hello: HelloKeys) -> Option<Seq<u8>> {
    envelope::cose_decrypted(packet, hello.pair(), hello.crypto, CRYPTO_DOMAIN_WIRE@)
}

/// Contents of an ArkHello as far as its signature vouches for them.
pub open spec fn verified_parts(
    signed: Seq<u8>,
    hello: HelloKeys,
    identity: VerifyingKey,
) -> Option<(Seq<u8>, EncryptionKey, Seq<u8>)> {
    match envelope::cose_verified(signed, hello.pair(), identity, CRYPTO_DOMAIN_WIRE@) {
        Some(payload) => hello_parts(payload),
        None => None,
    }
}

/// Key material of the server-to-client context that an ArkHello sets up, if its
/// signature verifies under the server's identity.
pub open spec fn answer_context(
    signed: Seq<u8>,
    hello: HelloKeys,
    identity: VerifyingKey,
) -> Option<Seq<u8>> {
    match verified_parts(signed, hello, identity) {
        Some(parts) => if parts.2.len() == keys::ENCAP_KEY_SIZE {
            Some(keys::xhpke_received(hello.crypto, parts.2, CRYPTO_DOMAIN_WIRE_ARK_TO_HOST@))
        } else {
            None
        },
        None => None,
    }
}

impl HelloKeys {
    /// Encoded public keys, which are the HostHello.
    pub open spec fn pair(self) -> Seq<u8> {
        key_pair(keys::xdsa_public(self.signer), keys::xhpke_public(self.crypto))
    }

    /// Public keys that the HostHello announces.
    pub open spec fn public(self) -> (VerifyingKey, EncryptionKey) {
        (keys::xdsa_public(self.signer), keys::xhpke_public(self.crypto))
    }

    /// Whether a packet is sealed to these keys, as the answer to their hello is.
    pub open spec fn addressed(self, packet: Seq<u8>) -> bool {
        envelope::cose_recipient(packet) == Some(
            keys::xhpke_fingerprint(keys::xhpke_public(self.crypto)),
        )
    }

    /// Generates fresh keys.
    pub fn generate() -> (hello: HelloKeys) {
        HelloKeys { signer: SigningKey::generate(), crypto: DecryptionKey::generate() }
    }

    /// Makes the HostHello announcing the keys.
    pub fn hello(&self) -> (packet: Vec<u8>)
        ensures
            packet@ == self.pair(),
            packet@.len() <= MAX_PAIR_SIZE,
            hello_keys(packet@) == Some(self.public()),
    {
        encode_keys(&self.signer.public_key(), &self.crypto.public_key())
    }

    /// Whether a packet is sealed to these keys. Packets that the server sent
    /// before it processed the hello are not.
    pub fn answered_by(&self, packet: &[u8]) -> (answered: bool)
        ensures
            answered == self.addressed(packet@),
    {
        let own = keys::fingerprint(&self.crypto.public_key());
        match envelope::recipient(packet) {
            Ok(fingerprint) => same_bytes(&fingerprint, &own),
            Err(_) => false,
        }
    }

    /// Decrypts an ArkHello and reads the attestation in it, whose signature is
    /// still to be verified. Refused are packets that do not decrypt or do not
    /// hold an ArkHello, and attestations that are not for a device.
    pub fn read_answer(&self, packet: &[u8], peer: Answerer) -> (answer: Result<
        (Vec<u8>, Attestation),
        Error,
    >)
        ensures
            match answer_signed(packet@, *self) {
                None => answer matches Err(err) && refused(
                    err,
                    peer.undecrypted(),
                ),
                Some(signed) => match (match envelope::cose_peeked(signed) {
                    Some(payload) => hello_parts(payload),
                    None => None,
                }) {
                    None => answer matches Err(err) && refused(
                        err,
                        peer.malformed(),
                    ),
                    Some(parts) => if attestation::device_token(parts.0) {
                        answer matches Ok(answer) && answer.0@ == signed && answer.1@ == parts.0
                    } else {
                        answer matches Err(err) && err == Error::InvalidAttestation
                    },
                },
            },
    {
        proof {
            lemma_domains();
        }
        let auth = encode_keys(&self.signer.public_key(), &self.crypto.public_key());
        let signed = match envelope::decrypt(packet, auth, &self.crypto, CRYPTO_DOMAIN_WIRE) {
            Ok(signed) => signed,
            Err(err) => return Err(
                peer.refuse_undecrypted(err.to_string().as_str()),
            ),
        };
        let payload = match envelope::peek(signed.as_slice()) {
            Ok(payload) => payload,
            Err(err) => return Err(
                peer.refuse_malformed(err.to_string().as_str()),
            ),
        };
        match read_parts(payload.as_slice()) {
            Ok((attest, _, _)) => match Attestation::new(attest) {
                Ok(attestation) => Ok((signed, attestation)),
                Err(err) => Err(err),
            },
            Err(err) => Err(peer.refuse_malformed(err.as_str())),
        }
    }

    /// Verifies a decrypted ArkHello against the server's identity and sets up the
    /// server-to-client receiver. Hands out the server's fresh encryption key
    /// along with it.
    pub fn accept(&self, signed: &[u8], identity: &VerifyingKey, peer: Answerer) -> (accepted: Result<
        (EncryptionKey, OpeningContext),
        Error,
    >)
        ensures
            match accepted {
                Ok(accepted) => {
                    &&& verified_parts(signed@, *self, *identity) matches Some(parts)
                    &&& parts.1 == accepted.0
                    &&& answer_context(signed@, *self, *identity) == Some(
                        sealing::receiver_context(accepted.1),
                    )
                    &&& sealing::receiver_sequence(accepted.1) == 0
                },
                Err(err) => {
                    &&& answer_context(signed@, *self, *identity) is None
                    &&& match verified_parts(signed@, *self, *identity) {
                        None => refused(err, peer.unverified()),
                        Some(parts) => {
                            &&& parts.2.len() != keys::ENCAP_KEY_SIZE
                            &&& refused(err, "invalid a2h_encap size"@)
                        },
                    }
                },
            },
    {
        proof {
            lemma_domains();
        }
        let auth = encode_keys(&self.signer.public_key(), &self.crypto.public_key());
        let payload = match envelope::verify(signed, auth, identity, CRYPTO_DOMAIN_WIRE) {
            Ok(payload) => payload,
            Err(err) => return Err(
                peer.refuse_unverified(err.to_string().as_str()),
            ),
        };
        let (_, crypto, encap) = match read_parts(payload.as_slice()) {
            Ok(parts) => parts,
            Err(err) => return Err(peer.refuse_unverified(err.as_str())),
        };
        if encap.len() != keys::ENCAP_KEY_SIZE {
            return Err(refusal("invalid a2h_encap size", ""));
        }
        match keys::new_receiver(&self.crypto, encap.as_slice(), CRYPTO_DOMAIN_WIRE_ARK_TO_HOST) {
            Ok(receiver) => Ok((crypto, receiver)),
            Err(err) => Err(refusal("client receiver setup failed: ", err.to_string().as_str())),
        }
    }

    /// Verifies a decrypted ArkHello against the server's identity and makes the
    /// HostAck, along with the session that it opens.
    pub fn complete(
        self,
        signed: &[u8],
        identity: &VerifyingKey,
        timestamp: Option<i64>,
        peer: Answerer,
    ) -> (completed: Result<(Session, Vec<u8>), Error>)
        ensures
            match completed {
                Ok(completed) => completes(
                    signed@,
                    self,
                    *identity,
                    completed.0,
                    completed.1@,
                    timestamp,
                ),
                Err(err) => match verified_parts(signed@, self, *identity) {
                    None => refused(err, peer.unverified()),
                    Some(parts) => {
                        &&& parts.2.len() != keys::ENCAP_KEY_SIZE
                        &&& refused(err, "invalid a2h_encap size"@)
                    },
                },
            },
    {
        let (crypto, receiver) = match self.accept(signed, identity, peer) {
            Ok(accepted) => accepted,
            Err(err) => return Err(err),
        };
        match acknowledge(&self.signer, identity, &crypto, timestamp) {
            Ok((sender, ack)) => Ok((Session { sender, receiver }, ack)),
            Err(err) => Err(err),
        }
    }
}

/// Whether an ack opens a client-to-server context: it holds the context's
/// encapsulated key, and is signed by the client and sealed to the server's fresh
/// key together with the server's identity.
pub open spec fn acknowledged(
    sender: SealingContext,
    ack: Seq<u8>,
    signer: SigningKey,
    identity: VerifyingKey,
    crypto: EncryptionKey,
    timestamp: Option<i64>,
) -> bool {
    let encap = seq![keys::sender_encap(sender)];
    &&& sealing::sender_sequence(sender) == 0
    &&& keys::xhpke_set_up(sender, crypto, CRYPTO_DOMAIN_WIRE_HOST_TO_ARK@)
    &&& keys::sender_encap(sender).len() == keys::ENCAP_KEY_SIZE
    &&& envelope::sealed(
        ack,
        envelope::cbor_list(encap),
        key_pair(identity, crypto),
        signer,
        crypto,
        CRYPTO_DOMAIN_WIRE@,
        timestamp,
    )
    &&& envelope::cbor_listed(envelope::cbor_list(encap)) == Some(encap)
    &&& ack.len() <= MAX_ACK_SIZE
}

/// Sets up the client-to-server sender and makes the HostAck that announces it.
pub fn acknowledge(
    signer: &SigningKey,
    identity: &VerifyingKey,
    crypto: &EncryptionKey,
    timestamp: Option<i64>,
) -> (made: Result<(SealingContext, Vec<u8>), Error>)
    ensures
        match made {
            Ok(made) => acknowledged(made.0, made.1@, *signer, *identity, *crypto, timestamp),
            Err(_) => false,
        },
{
    proof {
        lemma_domains();
    }
    let (sender, encap) = match keys::new_sender(crypto, CRYPTO_DOMAIN_WIRE_HOST_TO_ARK) {
        Ok(context) => context,
        Err(err) => return Err(refusal("client sender setup failed: ", err.to_string().as_str())),
    };
    // Seal the ack to the server's fresh key
    let payload = encode_ack(encap);
    let auth = encode_keys(identity, crypto);
    match seal_message(payload, auth, signer, crypto, timestamp) {
        Ok(ack) => Ok((sender, ack)),
        Err(err) => Err(refusal("failed to seal client ack: ", err.as_str())),
    }
}

/// Encodes the payload of the HostAck.
pub fn encode_ack(encap: Vec<u8>) -> (encoded: Vec<u8>)
    ensures
        encoded@ == envelope::cbor_list(seq![encap@]),
        envelope::cbor_listed(encoded@) == Some(seq![encap@]),
        encoded@.len() <= encap@.len() + 18,
{
    let ghost list = seq![encap@];
    proof {
        reveal_with_fuel(envelope::list_bound, 2);
        assert(list.drop_last() =~= Seq::<Seq<u8>>::empty());
    }
    let mut items: Vec<Vec<u8>> = Vec::new();
    items.push(encap);
    assert(envelope::contents(items@) =~= list);
    envelope::encode_list(items)
}

/// Signed message and attestation in an ArkHello that answers the keys' hello, if
/// it decrypts and holds the attestation of a device.
pub open spec fn answer_read(packet: Seq<u8>, hello: HelloKeys) -> Option<(Seq<u8>, Seq<u8>)> {
    match answer_signed(packet, hello) {
        Some(signed) => match envelope::cose_peeked(signed) {
            Some(payload) => match hello_parts(payload) {
                Some(parts) => if attestation::device_token(parts.0) {
                    Some((signed, parts.0))
                } else {
                    None
                },
                None => None,
            },
            None => None,
        },
        None => None,
    }
}

/// Attestation that a received item presents to the owner of the keys, if it is
/// an ArkHello which answers their hello.
pub open spec fn presented(item: Option<Item>, hello: HelloKeys) -> Option<Seq<u8>> {
    match item {
        Some(item) => match framing::arrival(item) {
            Arrival::Packet(packet) => match answer_read(packet, hello) {
                Some((_, attest)) => Some(attest),
                None => None,
            },
            _ => None,
        },
        None => None,
    }
}

/// Whether a session and an ack complete the handshake that an ArkHello answers,
/// the server's signature having verified under an identity.
pub open spec fn completes(
    signed: Seq<u8>,
    hello: HelloKeys,
    identity: VerifyingKey,
    session: Session,
    ack: Seq<u8>,
    timestamp: Option<i64>,
) -> bool {
    &&& verified_parts(signed, hello, identity) matches Some(parts)
    &&& answer_context(signed, hello, identity) == Some(
        sealing::receiver_context(session.receiver),
    )
    &&& sealing::receiver_sequence(session.receiver) == 0
    &&& acknowledged(session.sender, ack, hello.signer, identity, parts.1, timestamp)
}

/// What a verdict on the attestation makes of an ArkHello. A rejection ends the
/// handshake for its reason. Otherwise the signature has to be that of the identity,
/// and the encapsulated key one, for the handshake to complete.
pub open spec fn judges<I>(
    verdict: Result<(VerifyingKey, I), String>,
    signed: Seq<u8>,
    hello: HelloKeys,
    timestamp: Option<i64>,
    peer: Answerer,
    concluded: Result<(Session, Vec<u8>, I), Error>,
) -> bool {
    match verdict {
        Err(reason) => concluded matches Err(err) && err == Error::HandshakeFailed(reason),
        Ok((identity, info)) => match verified_parts(signed, hello, identity) {
            None => concluded matches Err(err) && refused(err, peer.unverified()),
            Some(parts) => if parts.2.len() != keys::ENCAP_KEY_SIZE {
                concluded matches Err(err) && refused(err, "invalid a2h_encap size"@)
            } else {
                &&& concluded matches Ok((session, ack, extracted))
                &&& completes(signed, hello, identity, session, ack@, timestamp)
                &&& extracted == info
            },
        },
    }
}

/// Concludes the client's side of a handshake with a decrypted ArkHello and the
/// verdict on the attestation in it.
pub fn judge<I>(
    hello: HelloKeys,
    signed: &[u8],
    verdict: Result<(VerifyingKey, I), String>,
    timestamp: Option<i64>,
    peer: Answerer,
) -> (concluded: Result<(Session, Vec<u8>, I), Error>)
    ensures
        judges(verdict, signed@, hello, timestamp, peer, concluded),
{
    let (identity, info) = match verdict {
        Ok(verdict) => verdict,
        Err(reason) => return Err(Error::HandshakeFailed(reason)),
    };
    match hello.complete(signed, &identity, timestamp, peer) {
        Ok((session, ack)) => Ok((session, ack, info)),
        Err(err) => Err(err),
    }
}

/// Refusal of a packet that is sealed to the keys, but is no ArkHello with the
/// attestation of a device.
pub open spec fn unread(
    packet: Seq<u8>,
    hello: HelloKeys,
    peer: Answerer,
    error: Error,
) -> bool {
    match answer_signed(packet, hello) {
        None => refused(error, peer.undecrypted()),
        Some(_) => if misattested(packet, hello) {
            error == Error::InvalidAttestation
        } else {
            refused(error, peer.malformed())
        },
    }
}

/// What a packet sealed to the keys makes of the client's handshake, the verifier
/// deciding whose device the attestation in it is.
pub open spec fn concludes<V: Verifier, I>(
    verifier: &V,
    packet: Seq<u8>,
    hello: HelloKeys,
    timestamp: Option<i64>,
    peer: Answerer,
    concluded: Result<(Session, Vec<u8>, I), Error>,
) -> bool {
    match answer_read(packet, hello) {
        None => concluded matches Err(err) && unread(packet, hello, peer, err),
        Some(read) => decides(verifier, read.0, read.1, hello, timestamp, peer, concluded),
    }
}

/// What an ArkHello makes of the client's handshake by some verdict of the verifier
/// on the attestation in it.
pub open spec fn decides<V: Verifier, I>(
    verifier: &V,
    signed: Seq<u8>,
    attest: Seq<u8>,
    hello: HelloKeys,
    timestamp: Option<i64>,
    peer: Answerer,
    concluded: Result<(Session, Vec<u8>, I), Error>,
) -> bool {
    exists|verdict: Result<(VerifyingKey, I), String>|
        {
            &&& match verdict {
                Ok((identity, _)) => verifier.accepts(attest, identity),
                Err(_) => verifier.rejects(attest),
            }
            &&& #[trigger] judges(verdict, signed, hello, timestamp, peer, concluded)
        }
}

/// Concludes the client's side of a handshake with the packet sealed to its keys.
/// The verifier decides whose device the attestation is, and the signature has to
/// be that identity's.
pub fn conclude<V: Verifier>(
    hello: HelloKeys,
    packet: &[u8],
    verifier: &V,
    timestamp: Option<i64>,
    peer: Answerer,
) -> (concluded: Result<(Session, Vec<u8>, V::Info), Error>)
    ensures
        concludes(verifier, packet@, hello, timestamp, peer, concluded),
        concluded matches Ok(concluded) ==> (answer_read(packet@, hello) matches Some((_, attest))
            && verifier.informs(attest, concluded.2)),
{
    let (signed, attestation) = match hello.read_answer(packet, peer) {
        Ok(answer) => answer,
        Err(err) => return Err(err),
    };
    let verdict = verifier.verify(&attestation);
    let concluded = judge(hello, signed.as_slice(), verdict, timestamp, peer);
    assert(judges(verdict, signed@, hello, timestamp, peer, concluded));
    assert(decides(verifier, signed@, attestation@, hello, timestamp, peer, concluded));
    concluded
}

/// Whether an ArkHello is well formed but for an attestation that is not for a
/// device.
pub open spec fn misattested(packet: Seq<u8>, hello: HelloKeys) -> bool {
    &&& answer_signed(packet, hello) matches Some(signed)
    &&& envelope::cose_peeked(signed) matches Some(payload)
    &&& hello_parts(payload) matches Some(parts)
    &&& !attestation::device_token(parts.0)
}

/// A frame has room for every ack, so a handshake whose ArkHello is accepted never
/// fails over its ack.
pub proof fn law_ack_fits(
    signed: Seq<u8>,
    hello: HelloKeys,
    identity: VerifyingKey,
    session: Session,
    ack: Seq<u8>,
    timestamp: Option<i64>,
)
    requires
        completes(signed, hello, identity, session, ack, timestamp),
    ensures
        cobs::encoded_bound(ack.len() as int) <= MAX_FRAME_SIZE,
{
}

/// A frame has room for the ack of every handshake that concludes in a session.
pub proof fn lemma_conclusion_fits<V: Verifier, I>(
    verifier: &V,
    packet: Seq<u8>,
    hello: HelloKeys,
    timestamp: Option<i64>,
    peer: Answerer,
    concluded: Result<(Session, Vec<u8>, I), Error>,
)
    requires
        concludes(verifier, packet, hello, timestamp, peer, concluded),
    ensures
        concluded matches Ok((_, ack, _)) ==> cobs::encoded_bound(ack@.len() as int)
            <= MAX_FRAME_SIZE,
{
    if let Ok((session, ack, _)) = concluded {
        let (signed, attest) = answer_read(packet, hello)->0;
        let verdict = choose|verdict: Result<(VerifyingKey, I), String>|
            {
                &&& match verdict {
                    Ok((identity, _)) => verifier.accepts(attest, identity),
                    Err(_) => verifier.rejects(attest),
                }
                &&& #[trigger] judges(verdict, signed, hello, timestamp, peer, concluded)
            };
        law_ack_fits(signed, hello, (verdict->Ok_0).0, session, ack@, timestamp);
    }
}

/// The client reads in an ArkHello what the server put there: the attestation,
/// the server's fresh encryption key and the encapsulated key, the latter two
/// vouched for by the server's identity. This holds of every ArkHello that
/// answers the client's hello, is presented with the attestation of a device,
/// and decrypts.
pub proof fn law_answer_reads_back(
    hello: HelloKeys,
    pending: Pending,
    packet: Seq<u8>,
    attest: Seq<u8>,
    signer: SigningKey,
    timestamp: Option<i64>,
)
    requires
        pending.announced(packet, attest, signer, keys::xhpke_public(hello.crypto), timestamp),
        pending.host_signer == keys::xdsa_public(hello.signer),
        attestation::device_token(attest),
        answer_signed(packet, hello) is Some,
    ensures
        hello.addressed(packet),
        answer_read(packet, hello) matches Some((signed, attested)) && attested == attest
            && verified_parts(signed, hello, keys::xdsa_public(signer)) == Some(
            (attest, keys::xhpke_public(pending.key), keys::sender_encap(pending.sender)),
        ),
{
    let encap = keys::sender_encap(pending.sender);
    let payload = ark_hello(attest, keys::xhpke_public(pending.key), encap);
    let signed = answer_signed(packet, hello)->0;
    assert(envelope::unseals(
        packet,
        payload,
        hello.pair(),
        signer,
        keys::xhpke_public(hello.crypto),
        CRYPTO_DOMAIN_WIRE@,
    ));
    assert(envelope::cose_peeked(signed) == Some(payload));
}

/// The server reads in a HostAck the encapsulated key that the client put there,
/// if the ack answers the server's hello under its identity and opens.
pub proof fn law_ack_reads_back(
    hello: HelloKeys,
    pending: Pending,
    signed: Seq<u8>,
    identity: VerifyingKey,
    session: Session,
    ack: Seq<u8>,
    timestamp: Option<i64>,
)
    requires
        completes(signed, hello, identity, session, ack, timestamp),
        verified_parts(signed, hello, identity) matches Some(parts) && parts.1
            == keys::xhpke_public(pending.key),
        pending.host_signer == keys::xdsa_public(hello.signer),
        ack_encap(ack, pending, identity) is Some,
    ensures
        ack_encap(ack, pending, identity) == Some(keys::sender_encap(session.sender)),
{
    let encap = seq![keys::sender_encap(session.sender)];
    assert(envelope::unseals(
        ack,
        envelope::cbor_list(encap),
        key_pair(identity, keys::xhpke_public(pending.key)),
        hello.signer,
        keys::xhpke_public(pending.key),
        CRYPTO_DOMAIN_WIRE@,
    ));
    assert(envelope::cose_opened(
        ack,
        key_pair(identity, keys::xhpke_public(pending.key)),
        pending.key,
        keys::xdsa_public(hello.signer),
        CRYPTO_DOMAIN_WIRE@,
    ) is Some);
}

/// A completed handshake leaves both sides in one session: each direction's
/// receiving context shares the key material and the position of the peer's
/// sending context, so that what one side seals the other opens. This holds of
/// every handshake whose messages decrypt and whose key exchanges agree.
pub proof fn law_handshake_agrees(
    hello: HelloKeys,
    pending: Pending,
    packet: Seq<u8>,
    attest: Seq<u8>,
    signer: SigningKey,
    client: Session,
    ack: Seq<u8>,
    server: Session,
    times: (Option<i64>, Option<i64>),
)
    requires
        pending.announced(packet, attest, signer, keys::xhpke_public(hello.crypto), times.0),
        pending.host_signer == keys::xdsa_public(hello.signer),
        attestation::device_token(attest),
        answer_signed(packet, hello) matches Some(signed) && completes(
            signed,
            hello,
            keys::xdsa_public(signer),
            client,
            ack,
            times.1,
        ),
        ack_context(ack, pending, keys::xdsa_public(signer)) == Some(
            sealing::receiver_context(server.receiver),
        ),
        sealing::receiver_sequence(server.receiver) == 0,
        server.sender == pending.sender,
        keys::agreed(pending.sender, hello.crypto, CRYPTO_DOMAIN_WIRE_ARK_TO_HOST@),
        keys::agreed(client.sender, pending.key, CRYPTO_DOMAIN_WIRE_HOST_TO_ARK@),
    ensures
        sealing::in_step(client.sender, server.receiver),
        sealing::in_step(server.sender, client.receiver),
{
    let signed = answer_signed(packet, hello)->0;
    law_answer_reads_back(hello, pending, packet, attest, signer, times.0);
    law_ack_reads_back(
        hello,
        pending,
        signed,
        keys::xdsa_public(signer),
        client,
        ack,
        times.1,
    );
}

/// Whether a packet vouches for a session under an identity: it decrypts with the key
/// that the client announced, to a message which that identity signed for this very pair
/// of keys, presents the attestation of a device that the verifier takes for the
/// identity's, and holds the key that the session receives with. The ack to it is signed by
/// the client for that identity, at the time given if one is.
pub open spec fn vouches<V: Verifier>(
    verifier: &V,
    packet: Seq<u8>,
    hello: HelloKeys,
    identity: VerifyingKey,
    signed: Seq<u8>,
    payload: Seq<u8>,
    session: Session,
    ack: Seq<u8>,
    timestamp: Option<i64>,
) -> bool {
    let auth = envelope::cbor_list(
        seq![
            keys::xdsa_bytes(keys::xdsa_public(hello.signer)),
            keys::xhpke_bytes(keys::xhpke_public(hello.crypto)),
        ],
    );
    &&& envelope::cose_decrypted(packet, auth, hello.crypto, "wire-v1"@) == Some(signed)
    &&& envelope::cose_verified(signed, auth, identity, "wire-v1"@) == Some(payload)
    &&& envelope::cose_peeked(signed) matches Some(peeked)
    &&& envelope::cbor_listed(peeked) matches Some(shown)
    &&& shown.len() == 3
    &&& attestation::hardware_token(shown[0]) || attestation::emulator_token(shown[0])
    &&& verifier.accepts(shown[0], identity)
    &&& envelope::cbor_listed(payload) matches Some(items)
    &&& items.len() == 3
    &&& items[2].len() == keys::ENCAP_KEY_SIZE
    &&& sealing::receiver_context(session.receiver) == keys::xhpke_received(
        hello.crypto,
        items[2],
        "wire-v1:ark-to-host"@,
    )
    &&& sealing::receiver_sequence(session.receiver) == 0
    &&& sealing::sender_sequence(session.sender) == 0
    &&& keys::xhpke_parsed(items[1]) matches Some(crypto)
    &&& envelope::cose_recipient(ack) == Some(keys::xhpke_fingerprint(crypto))
    &&& signed_at(
        ack,
        envelope::cbor_list(seq![keys::sender_encap(session.sender)]),
        envelope::cbor_list(seq![keys::xdsa_bytes(identity), keys::xhpke_bytes(crypto)]),
        hello.signer,
        crypto,
        "wire-v1"@,
        timestamp,
    )
}

/// Whether a packet was signed and sealed at a time, or at some time if none is given.
pub open spec fn signed_at(
    packet: Seq<u8>,
    payload: Seq<u8>,
    auth: Seq<u8>,
    signer: SigningKey,
    recipient: EncryptionKey,
    domain: Seq<char>,
    timestamp: Option<i64>,
) -> bool {
    exists|time: i64| #[trigger]
        envelope::cose_sealed(packet, payload, auth, signer, recipient, domain, time) && (
        timestamp is Some ==> timestamp == Some(time))
}

/// Whether a packet is an answer to a hello: it presents an attestation along with the
/// server's fresh key and the key of its sending context, is signed by the server for the
/// pair of keys announced, at the time given if one is, and is sealed to the client's.
pub open spec fn answered_with(
    answer: Seq<u8>,
    attest: Seq<u8>,
    hello: (VerifyingKey, EncryptionKey),
    pending: Pending,
    signer: SigningKey,
    timestamp: Option<i64>,
) -> bool {
    signed_at(
        answer,
        envelope::cbor_list(
            seq![
                attest,
                keys::xhpke_bytes(keys::xhpke_public(pending.key)),
                keys::sender_encap(pending.sender),
            ],
        ),
        envelope::cbor_list(seq![keys::xdsa_bytes(hello.0), keys::xhpke_bytes(hello.1)]),
        signer,
        hello.1,
        "wire-v1"@,
        timestamp,
    )
}

/// No session opens but with a server whose signature verified under an identity that the
/// verifier took, over the keys of this handshake.
pub proof fn law_session_is_vouched_for<V: Verifier, I>(
    verifier: &V,
    packet: Seq<u8>,
    hello: HelloKeys,
    timestamp: Option<i64>,
    peer: Answerer,
    session: Session,
    ack: Vec<u8>,
    info: I,
)
    requires
        concludes(verifier, packet, hello, timestamp, peer, Ok((session, ack, info))),
    ensures
        exists|identity: VerifyingKey, signed: Seq<u8>, payload: Seq<u8>| #[trigger]
            vouches(verifier, packet, hello, identity, signed, payload, session, ack@, timestamp),
{
    let concluded: Result<(Session, Vec<u8>, I), Error> = Ok((session, ack, info));
    let (signed, attest) = answer_read(packet, hello)->0;
    let verdict = choose|verdict: Result<(VerifyingKey, I), String>|
        {
            &&& match verdict {
                Ok((identity, _)) => verifier.accepts(attest, identity),
                Err(_) => verifier.rejects(attest),
            }
            &&& #[trigger] judges(verdict, signed, hello, timestamp, peer, concluded)
        };
    let identity = (verdict->Ok_0).0;
    let payload = envelope::cose_verified(
        signed,
        hello.pair(),
        identity,
        CRYPTO_DOMAIN_WIRE@,
    )->0;
    assert(vouches(
        verifier,
        packet,
        hello,
        identity,
        signed,
        payload,
        session,
        ack@,
        timestamp,
    ));
}

/// The answer of an honest server opens a session, if it decrypts and the verifier takes
/// its attestation, for the server's own identity and no other.
pub proof fn law_honest_answer_concludes<V: Verifier, I>(
    verifier: &V,
    packet: Seq<u8>,
    hello: HelloKeys,
    pending: Pending,
    attest: Seq<u8>,
    signer: SigningKey,
    times: (Option<i64>, Option<i64>),
    peer: Answerer,
    concluded: Result<(Session, Vec<u8>, I), Error>,
)
    requires
        concludes(verifier, packet, hello, times.1, peer, concluded),
        pending.announced(packet, attest, signer, keys::xhpke_public(hello.crypto), times.0),
        pending.host_signer == keys::xdsa_public(hello.signer),
        attestation::device_token(attest),
        envelope::cose_decrypted(packet, hello.pair(), hello.crypto, "wire-v1"@) is Some,
        !verifier.rejects(attest),
        forall|identity: VerifyingKey|
            verifier.accepts(attest, identity) ==> identity == keys::xdsa_public(signer),
    ensures
        concluded is Ok,
{
    law_answer_reads_back(hello, pending, packet, attest, signer, times.0);
}

/// A packet that is no answer is refused for the first thing wrong with it: it does not
/// decrypt, it holds something else, or it presents an attestation of no device.
pub proof fn law_answer_is_refused<V: Verifier, I>(
    verifier: &V,
    packet: Seq<u8>,
    hello: HelloKeys,
    timestamp: Option<i64>,
    concluded: Result<(Session, Vec<u8>, I), Error>,
)
    requires
        concludes(verifier, packet, hello, timestamp, Answerer::Server, concluded),
    ensures
        match envelope::cose_decrypted(packet, hello.pair(), hello.crypto, "wire-v1"@) {
            None => concluded matches Err(Error::HandshakeFailed(text))
                && "failed to decrypt server hello: "@.is_prefix_of(text@),
            Some(signed) => match envelope::cose_peeked(signed) {
                None => concluded matches Err(Error::HandshakeFailed(text))
                    && "invalid server hello payload: "@.is_prefix_of(text@),
                Some(payload) => match envelope::cbor_listed(payload) {
                    Some(items) => {
                        let formed = items.len() == 3 && items[1].len() == keys::ENCRYPTION_KEY_SIZE
                            && keys::xhpke_parsed(items[1]) is Some;
                        &&& !formed ==> (concluded matches Err(Error::HandshakeFailed(text))
                            && "invalid server hello payload: "@.is_prefix_of(text@))
                        &&& formed && !attestation::hardware_token(items[0])
                            && !attestation::emulator_token(items[0]) ==> (concluded matches Err(
                            error,
                        ) && error == Error::InvalidAttestation)
                    },
                    None => concluded matches Err(Error::HandshakeFailed(text))
                        && "invalid server hello payload: "@.is_prefix_of(text@),
                },
            },
        },
{
}

/// An ack sets up a context exactly if the client of the pending handshake signed it for
/// the server's identity and fresh key, and it holds a single encapsulated key.
pub proof fn law_ack_is_vouched_for(
    packet: Seq<u8>,
    key: DecryptionKey,
    signer: VerifyingKey,
    identity: VerifyingKey,
)
    ensures
        match envelope::cose_opened(
            packet,
            envelope::cbor_list(
                seq![keys::xdsa_bytes(identity), keys::xhpke_bytes(keys::xhpke_public(key))],
            ),
            key,
            signer,
            "wire-v1"@,
        ) {
            Some(payload) => match envelope::cbor_listed(payload) {
                Some(items) => if items.len() == 1 && items[0].len() == keys::ENCAP_KEY_SIZE {
                    context_for(packet, key, signer, identity) == Some(
                        keys::xhpke_received(key, items[0], "wire-v1:host-to-ark"@),
                    )
                } else {
                    context_for(packet, key, signer, identity) is None
                },
                None => context_for(packet, key, signer, identity) is None,
            },
            None => context_for(packet, key, signer, identity) is None,
        },
{
}

/// A packet is a hello exactly if it lists two keys, one to sign with and one to encrypt
/// to, and these are the keys that it announces.
pub proof fn law_hello_is_two_keys(packet: Seq<u8>, signer: VerifyingKey, crypto: EncryptionKey)
    ensures
        hello_keys(packet) == Some((signer, crypto)) <==> {
            &&& envelope::cbor_listed(packet) matches Some(items)
            &&& items.len() == 2
            &&& items[0].len() == keys::VERIFYING_KEY_SIZE
            &&& items[1].len() == keys::ENCRYPTION_KEY_SIZE
            &&& keys::xdsa_parsed(items[0]) == Some(signer)
            &&& keys::xhpke_parsed(items[1]) == Some(crypto)
        },
{
}

/// A verdict against the attestation ends the handshake for its reason. With one for it, the
/// signature of the identity decides, then the size of the encapsulated key, and a handshake
/// that passes both comes with the info of the verdict.
pub proof fn law_verdict_decides<I>(
    verdict: Result<(VerifyingKey, I), String>,
    signed: Seq<u8>,
    hello: HelloKeys,
    timestamp: Option<i64>,
    concluded: Result<(Session, Vec<u8>, I), Error>,
)
    requires
        judges(verdict, signed, hello, timestamp, Answerer::Server, concluded),
    ensures
        match verdict {
            Err(reason) => concluded matches Err(Error::HandshakeFailed(text)) && text == reason,
            Ok((identity, info)) => match envelope::cose_verified(
                signed,
                hello.pair(),
                identity,
                "wire-v1"@,
            ) {
                None => concluded matches Err(Error::HandshakeFailed(text))
                    && "server hello signature invalid: "@.is_prefix_of(text@),
                Some(payload) => match envelope::cbor_listed(payload) {
                    Some(items) => {
                        let formed = items.len() == 3 && items[1].len() == keys::ENCRYPTION_KEY_SIZE
                            && keys::xhpke_parsed(items[1]) is Some;
                        &&& !formed ==> (concluded matches Err(Error::HandshakeFailed(text))
                            && "server hello signature invalid: "@.is_prefix_of(text@))
                        &&& formed && items[2].len() != keys::ENCAP_KEY_SIZE ==> (concluded matches Err(
                            Error::HandshakeFailed(text),
                        ) && "invalid a2h_encap size"@.is_prefix_of(text@))
                        &&& formed && items[2].len() == keys::ENCAP_KEY_SIZE ==> (concluded matches Ok(
                            done,
                        ) && done.2 == info)
                    },
                    None => concluded matches Err(Error::HandshakeFailed(text))
                        && "server hello signature invalid: "@.is_prefix_of(text@),
                },
            },
        },
{
}

/// The messages of a handshake are signed at the time given for them, if one is: the answer
/// by the server over the keys of the hello, the ack by the client over the server's.
pub proof fn law_signing_time_is_kept(
    pending: Pending,
    packet: Seq<u8>,
    attest: Seq<u8>,
    signer: SigningKey,
    crypto: EncryptionKey,
    sender: SealingContext,
    ack: Seq<u8>,
    client: SigningKey,
    identity: VerifyingKey,
    time: i64,
)
    requires
        pending.announced(packet, attest, signer, crypto, Some(time)) || acknowledged(
            sender,
            ack,
            client,
            identity,
            crypto,
            Some(time),
        ),
    ensures
        pending.announced(packet, attest, signer, crypto, Some(time)) ==> envelope::cose_sealed(
            packet,
            envelope::cbor_list(
                seq![
                    attest,
                    keys::xhpke_bytes(keys::xhpke_public(pending.key)),
                    keys::sender_encap(pending.sender),
                ],
            ),
            envelope::cbor_list(
                seq![keys::xdsa_bytes(pending.host_signer), keys::xhpke_bytes(crypto)],
            ),
            signer,
            crypto,
            "wire-v1"@,
            time,
        ),
        acknowledged(sender, ack, client, identity, crypto, Some(time)) ==> envelope::cose_sealed(
            ack,
            envelope::cbor_list(seq![keys::sender_encap(sender)]),
            envelope::cbor_list(seq![keys::xdsa_bytes(identity), keys::xhpke_bytes(crypto)]),
            client,
            crypto,
            "wire-v1"@,
            time,
        ),
{
}

} // verus!
