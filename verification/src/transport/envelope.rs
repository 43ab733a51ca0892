//! Encoded and sealed messages of the handshake. Every message is a CBOR array of
//! byte strings; sealed ones travel signed and encrypted in a COSE envelope.

use darkbio_crypto::cbor::{Array, Error as CborError, Raw};
use darkbio_crypto::cose::Error as CoseError;
use darkbio_crypto::xdsa::{PublicKey as VerifyingKey, SecretKey as SigningKey};
use darkbio_crypto::xhpke::{PublicKey as EncryptionKey, SecretKey as DecryptionKey};
use darkbio_crypto::{cbor, cose};
use vstd::prelude::*;

use super::keys;

verus! {

/// The CBOR codec's own error.
#[verifier::external_type_specification]
#[verifier::external_body]
pub struct ExCborError(CborError);

/// The COSE codec's own error.
#[verifier::external_type_specification]
#[verifier::external_body]
pub struct ExCoseError(CoseError);

/// Most bytes that an envelope adds to its payload: the signature of 3373 bytes, the
/// encapsulated key of 1120 bytes, and the tag and the headers around them, which take
/// well below the rest.
pub const MAX_OVERHEAD: usize = 8192;

/// Contents of a list of buffers.
pub open spec fn contents(items: Seq<Vec<u8>>) -> Seq<Seq<u8>> {
    items.map_values(|item: Vec<u8>| item@)
}

/// CBOR encoding of an array of byte strings.
pub uninterp spec fn cbor_list(items: Seq<Seq<u8>>) -> Seq<u8>;

/// Byte strings of the array that a CBOR encoding stands for, if it is one.
pub uninterp spec fn cbor_listed(encoded: Seq<u8>) -> Option<Seq<Seq<u8>>>;

/// Whether a packet is an envelope of a payload, signed together with the
/// authenticated text at a time in Unix seconds, and encrypted to the recipient
/// under a domain.
pub uninterp spec fn cose_sealed(
    packet: Seq<u8>,
    payload: Seq<u8>,
    auth: Seq<u8>,
    signer: SigningKey,
    recipient: EncryptionKey,
    domain: Seq<char>,
    timestamp: i64,
) -> bool;

/// Fingerprint of the key that a packet claims to be encrypted to, if it is an
/// envelope.
pub uninterp spec fn cose_recipient(packet: Seq<u8>) -> Option<Seq<u8>>;

/// Signed message that decrypting an envelope gives, if it is authentic.
pub uninterp spec fn cose_decrypted(
    packet: Seq<u8>,
    auth: Seq<u8>,
    key: DecryptionKey,
    domain: Seq<char>,
) -> Option<Seq<u8>>;

/// Payload of a signed message, without looking at the signature.
pub uninterp spec fn cose_peeked(signed: Seq<u8>) -> Option<Seq<u8>>;

/// Payload of a signed message whose signature verifies.
pub uninterp spec fn cose_verified(
    signed: Seq<u8>,
    auth: Seq<u8>,
    signer: VerifyingKey,
    domain: Seq<char>,
) -> Option<Seq<u8>>;

/// Payload of an envelope that decrypts to a signed message which verifies.
pub uninterp spec fn cose_opened(
    packet: Seq<u8>,
    auth: Seq<u8>,
    key: DecryptionKey,
    signer: VerifyingKey,
    domain: Seq<char>,
) -> Option<Seq<u8>>;

/// Whether a packet is an envelope of a payload made at a time, or at some time
/// if none is given. Its recipient finds the payload in it, vouched for by the
/// signer, if it decrypts at all.
pub open spec fn sealed(
    packet: Seq<u8>,
    payload: Seq<u8>,
    auth: Seq<u8>,
    signer: SigningKey,
    recipient: EncryptionKey,
    domain: Seq<char>,
    timestamp: Option<i64>,
) -> bool {
    &&& match timestamp {
        Some(time) => cose_sealed(packet, payload, auth, signer, recipient, domain, time),
        None => exists|time: i64| #[trigger]
            cose_sealed(packet, payload, auth, signer, recipient, domain, time),
    }
    &&& payload.len() <= packet.len() <= payload.len() + MAX_OVERHEAD
    &&& cose_recipient(packet) == Some(keys::xhpke_fingerprint(recipient))
    &&& cbor_listed(payload) is Some ==> unseals(packet, payload, auth, signer, recipient, domain)
}

/// Whether the recipient of an envelope finds the payload in it, vouched for by
/// the signer, if it decrypts at all.
pub open spec fn unseals(
    packet: Seq<u8>,
    payload: Seq<u8>,
    auth: Seq<u8>,
    signer: SigningKey,
    recipient: EncryptionKey,
    domain: Seq<char>,
) -> bool {
    &&& forall|key: DecryptionKey, signed: Seq<u8>|
        keys::xhpke_public(key) == recipient && #[trigger] cose_decrypted(packet, auth, key, domain)
            == Some(signed) ==> #[trigger] cose_peeked(signed) == Some(payload) && cose_verified(
            signed,
            auth,
            keys::xdsa_public(signer),
            domain,
        ) == Some(payload)
    &&& forall|key: DecryptionKey|
        keys::xhpke_public(key) == recipient && #[trigger] cose_opened(
            packet,
            auth,
            key,
            keys::xdsa_public(signer),
            domain,
        ) is Some ==> cose_opened(packet, auth, key, keys::xdsa_public(signer), domain) == Some(
            payload,
        )
}

/// Most bytes that the encoding of an array of byte strings takes: a header of at
/// most nine bytes for the array, and one in front of each byte string.
pub open spec fn list_bound(items: Seq<Seq<u8>>) -> nat
    decreases items.len(),
{
    if items.len() == 0 {
        9
    } else {
        list_bound(items.drop_last()) + 9 + items.last().len()
    }
}

/// Encodes byte strings with `cbor::encode`, as a `cbor::Array`. Encoding byte
/// strings cannot fail, and decoding gives them back. The encoding holds every string
/// as it is.
#[verifier::external_body]
pub(crate) fn encode_list(items: Vec<Vec<u8>>) -> (encoded: Vec<u8>)
    ensures
        encoded@ == cbor_list(contents(items@)),
        cbor_listed(encoded@) == Some(contents(items@)),
        encoded@.len() <= list_bound(contents(items@)),
        forall|i: int|
            0 <= i < items@.len() ==> (#[trigger] items@[i])@.len() <= encoded@.len(),
{
    cbor::encode(Array(items)).expect("byte strings always encode")
}

/// Decodes an array of byte strings with `cbor::decode`. Every string is a part of
/// the encoding.
#[verifier::external_body]
pub(crate) fn decode_list(encoded: &[u8]) -> (items: Result<Vec<Vec<u8>>, CborError>)
    ensures
        match items {
            Ok(items) => {
                &&& cbor_listed(encoded@) == Some(contents(items@))
                &&& forall|i: int|
                    0 <= i < items@.len() ==> (#[trigger] items@[i])@.len() <= encoded@.len()
            },
            Err(_) => cbor_listed(encoded@) is None,
        },
{
    Ok(cbor::decode::<Array<Vec<u8>>>(encoded)?.0)
}

/// Signs and encrypts an encoded payload with `cose::seal`, at the current time.
/// The envelope is random, and names the recipient's key by its fingerprint. If
/// it decrypts under the recipient's key, then to a message that verifies under
/// the signer's key and holds the payload, as long as that is valid CBOR. Neither
/// signing nor encoding can fail, and encryption only of a payload much longer
/// than 2^32 bytes. The envelope holds the payload encrypted, byte for byte, and the
/// headers, signature and key in it take a bounded number of bytes more. That the
/// envelope decrypts rests on a key exchange which can fail with a negligible
/// probability, and is left unsaid. The call panics on a system clock set before the
/// Unix epoch.
#[verifier::external_body]
pub(crate) fn seal(
    payload: Vec<u8>,
    auth: Vec<u8>,
    signer: &SigningKey,
    recipient: &EncryptionKey,
    domain: &str,
) -> (packet: Result<Vec<u8>, CoseError>)
    requires
        domain@.len() <= keys::MAX_DOMAIN_SIZE,
    ensures
        payload@.len() <= u32::MAX ==> packet is Ok,
        match packet {
            Ok(packet) => {
                &&& exists|timestamp: i64| #[trigger]
                    cose_sealed(
                        packet@,
                        payload@,
                        auth@,
                        *signer,
                        *recipient,
                        domain@,
                        timestamp,
                    )
                &&& payload@.len() <= packet@.len() <= payload@.len() + MAX_OVERHEAD
                &&& cose_recipient(packet@) == Some(keys::xhpke_fingerprint(*recipient))
                &&& forall|key: DecryptionKey, signed: Seq<u8>|
                    keys::xhpke_public(key) == *recipient && cbor_listed(payload@) is Some
                        && #[trigger] cose_decrypted(packet@, auth@, key, domain@) == Some(signed)
                        ==> #[trigger] cose_peeked(signed) == Some(payload@) && cose_verified(
                        signed,
                        auth@,
                        keys::xdsa_public(*signer),
                        domain@,
                    ) == Some(payload@)
                &&& forall|key: DecryptionKey|
                    keys::xhpke_public(key) == *recipient && cbor_listed(payload@) is Some
                        && #[trigger] cose_opened(
                        packet@,
                        auth@,
                        key,
                        keys::xdsa_public(*signer),
                        domain@,
                    ) is Some ==> cose_opened(
                        packet@,
                        auth@,
                        key,
                        keys::xdsa_public(*signer),
                        domain@,
                    ) == Some(payload@)
            },
            Err(_) => true,
        },
{
    cose::seal(Raw(payload), Raw(auth), signer, recipient, domain.as_bytes())
}

/// Signs and encrypts an encoded payload with `cose::seal_at`, which takes the
/// signing time in seconds, and else does what `cose::seal` does.
#[verifier::external_body]
pub(crate) fn seal_at(
    payload: Vec<u8>,
    auth: Vec<u8>,
    signer: &SigningKey,
    recipient: &EncryptionKey,
    domain: &str,
    timestamp: i64,
) -> (packet: Result<Vec<u8>, CoseError>)
    requires
        domain@.len() <= keys::MAX_DOMAIN_SIZE,
    ensures
        payload@.len() <= u32::MAX ==> packet is Ok,
        match packet {
            Ok(packet) => {
                &&& cose_sealed(
                    packet@,
                    payload@,
                    auth@,
                    *signer,
                    *recipient,
                    domain@,
                    timestamp,
                )
                &&& payload@.len() <= packet@.len() <= payload@.len() + MAX_OVERHEAD
                &&& cose_recipient(packet@) == Some(keys::xhpke_fingerprint(*recipient))
                &&& forall|key: DecryptionKey, signed: Seq<u8>|
                    keys::xhpke_public(key) == *recipient && cbor_listed(payload@) is Some
                        && #[trigger] cose_decrypted(packet@, auth@, key, domain@) == Some(signed)
                        ==> #[trigger] cose_peeked(signed) == Some(payload@) && cose_verified(
                        signed,
                        auth@,
                        keys::xdsa_public(*signer),
                        domain@,
                    ) == Some(payload@)
                &&& forall|key: DecryptionKey|
                    keys::xhpke_public(key) == *recipient && cbor_listed(payload@) is Some
                        && #[trigger] cose_opened(
                        packet@,
                        auth@,
                        key,
                        keys::xdsa_public(*signer),
                        domain@,
                    ) is Some ==> cose_opened(
                        packet@,
                        auth@,
                        key,
                        keys::xdsa_public(*signer),
                        domain@,
                    ) == Some(payload@)
            },
            Err(_) => true,
        },
{
    cose::seal_at(Raw(payload), Raw(auth), signer, recipient, domain.as_bytes(), timestamp)
}

/// Fingerprint of an envelope's recipient, by `cose::recipient`.
#[verifier::external_body]
pub(crate) fn recipient(packet: &[u8]) -> (fingerprint: Result<Vec<u8>, CoseError>)
    ensures
        match fingerprint {
            Ok(fingerprint) => cose_recipient(packet@) == Some(fingerprint@),
            Err(_) => cose_recipient(packet@) is None,
        },
{
    Ok(cose::recipient(packet)?.to_bytes().to_vec())
}

/// Decrypts an envelope with `cose::decrypt`.
#[verifier::external_body]
pub(crate) fn decrypt(packet: &[u8], auth: Vec<u8>, key: &DecryptionKey, domain: &str) -> (signed:
    Result<Vec<u8>, CoseError>)
    requires
        domain@.len() <= keys::MAX_DOMAIN_SIZE,
    ensures
        match signed {
            Ok(signed) => cose_decrypted(packet@, auth@, *key, domain@) == Some(signed@),
            Err(_) => cose_decrypted(packet@, auth@, *key, domain@) is None,
        },
{
    cose::decrypt(packet, Raw(auth), key, domain.as_bytes())
}

/// Payload of a signed message by `cose::peek`, which checks no signature.
#[verifier::external_body]
pub(crate) fn peek(signed: &[u8]) -> (payload: Result<Vec<u8>, CoseError>)
    ensures
        match payload {
            Ok(payload) => cose_peeked(signed@) == Some(payload@),
            Err(_) => cose_peeked(signed@) is None,
        },
{
    Ok(cose::peek::<Raw>(signed)?.0)
}

/// Payload of a signed message by `cose::verify`, without a limit on its age.
#[verifier::external_body]
pub(crate) fn verify(signed: &[u8], auth: Vec<u8>, signer: &VerifyingKey, domain: &str) -> (payload:
    Result<Vec<u8>, CoseError>)
    ensures
        match payload {
            Ok(payload) => cose_verified(signed@, auth@, *signer, domain@) == Some(payload@),
            Err(_) => cose_verified(signed@, auth@, *signer, domain@) is None,
        },
{
    Ok(cose::verify::<Raw, Raw>(signed, Raw(auth), signer, domain.as_bytes(), None)?.0)
}

/// Payload of an envelope by `cose::open`, without a limit on its age.
#[verifier::external_body]
pub(crate) fn open(
    packet: &[u8],
    auth: Vec<u8>,
    key: &DecryptionKey,
    signer: &VerifyingKey,
    domain: &str,
) -> (payload: Result<Vec<u8>, CoseError>)
    requires
        domain@.len() <= keys::MAX_DOMAIN_SIZE,
    ensures
        match payload {
            Ok(payload) => cose_opened(packet@, auth@, *key, *signer, domain@) == Some(payload@),
            Err(_) => cose_opened(packet@, auth@, *key, *signer, domain@) is None,
        },
{
    Ok(cose::open::<Raw, Raw>(packet, Raw(auth), key, signer, domain.as_bytes(), None)?.0)
}

} // verus!
