//! Keys of the handshake. Signing keys identify a peer, encryption keys open one
//! session. The types are those of the cryptography crate; contracts speak of
//! their encodings through the names below.

use darkbio_crypto::xdsa::{
    Error as SigningKeyError, PublicKey as VerifyingKey, SecretKey as SigningKey,
};
use darkbio_crypto::xhpke::{
    Error as ContextError, PublicKey as EncryptionKey, Receiver as OpeningContext,
    SecretKey as DecryptionKey, Sender as SealingContext,
};
use vstd::prelude::*;

use super::sealing;

verus! {

/// Size of the seed that a signing key is made of.
pub const SIGNING_KEY_SIZE: usize = 64;

/// Size of the seed that a decryption key is made of.
pub const DECRYPTION_KEY_SIZE: usize = 32;

/// Size of an encoded verifying key.
pub const VERIFYING_KEY_SIZE: usize = 1984;

/// Size of an encoded encryption key.
pub const ENCRYPTION_KEY_SIZE: usize = 1216;

/// Size of an encapsulated key.
pub const ENCAP_KEY_SIZE: usize = 1120;

/// Longest domain separator, in characters, that contexts are set up under. The
/// key schedule takes any domain whose bytes number well below 2^16.
pub const MAX_DOMAIN_SIZE: usize = 256;

/// Secret key that signs.
#[verifier::external_type_specification]
#[verifier::external_body]
pub struct ExSigningKey(SigningKey);

/// Public key that verifies signatures.
#[verifier::external_type_specification]
#[verifier::external_body]
pub struct ExVerifyingKey(VerifyingKey);

/// Error of the signing key parsers.
#[verifier::external_type_specification]
#[verifier::external_body]
pub struct ExSigningKeyError(SigningKeyError);

/// Secret key that decrypts.
#[verifier::external_type_specification]
#[verifier::external_body]
pub struct ExDecryptionKey(DecryptionKey);

/// Public key that encrypts.
#[verifier::external_type_specification]
#[verifier::external_body]
pub struct ExEncryptionKey(EncryptionKey);

/// Signing key that a seed stands for.
pub uninterp spec fn xdsa_seeded(seed: Seq<u8>) -> SigningKey;

/// Decryption key that a seed stands for.
pub uninterp spec fn xhpke_seeded(seed: Seq<u8>) -> DecryptionKey;

/// Public counterpart of a signing key.
pub uninterp spec fn xdsa_public(key: SigningKey) -> VerifyingKey;

/// Encoding of a verifying key.
pub uninterp spec fn xdsa_bytes(key: VerifyingKey) -> Seq<u8>;

/// Verifying key that an encoding stands for, if it is one.
pub uninterp spec fn xdsa_parsed(bytes: Seq<u8>) -> Option<VerifyingKey>;

/// Public counterpart of a decryption key.
pub uninterp spec fn xhpke_public(key: DecryptionKey) -> EncryptionKey;

/// Encoding of an encryption key.
pub uninterp spec fn xhpke_bytes(key: EncryptionKey) -> Seq<u8>;

/// Encryption key that an encoding stands for, if it is one.
pub uninterp spec fn xhpke_parsed(bytes: Seq<u8>) -> Option<EncryptionKey>;

/// Fingerprint of an encryption key.
pub uninterp spec fn xhpke_fingerprint(key: EncryptionKey) -> Seq<u8>;

/// Key material of the receiving context that a decryption key and an
/// encapsulated key set up under a domain.
pub uninterp spec fn xhpke_received(
    key: DecryptionKey,
    encap: Seq<u8>,
    domain: Seq<char>,
) -> Seq<u8>;

/// Encapsulated key that was handed out together with a sending context.
pub uninterp spec fn sender_encap(sender: SealingContext) -> Seq<u8>;

/// Whether a sending context was set up for the owner of a key, under a domain.
pub uninterp spec fn xhpke_set_up(
    sender: SealingContext,
    key: EncryptionKey,
    domain: Seq<char>,
) -> bool;

/// Whether the key exchange behind a sending context agrees: the owner of the
/// decryption key arrives at the same key material under a domain.
pub open spec fn agreed(sender: SealingContext, key: DecryptionKey, domain: Seq<char>) -> bool {
    xhpke_received(key, sender_encap(sender), domain) == sealing::sender_context(sender)
}

/// `xdsa::SecretKey::generate` makes a random key, of which nothing is known.
pub assume_specification[ SigningKey::generate ]() -> (key: SigningKey)
;

/// `xdsa::SecretKey::public_key` derives the public counterpart.
pub assume_specification[ SigningKey::public_key ](key: &SigningKey) -> (public: VerifyingKey)
    ensures
        public == xdsa_public(*key),
;

/// Cloning an `xdsa::SecretKey` copies its two component keys.
pub assume_specification[ <SigningKey as Clone>::clone ](key: &SigningKey) -> (copied: SigningKey)
    ensures
        copied == *key,
;

/// Cloning an `xdsa::PublicKey` copies its two component keys.
pub assume_specification[ <VerifyingKey as Clone>::clone ](key: &VerifyingKey) -> (copied:
    VerifyingKey)
    ensures
        copied == *key,
;

/// `xhpke::SecretKey::generate` makes a random key, of which nothing is known.
pub assume_specification[ DecryptionKey::generate ]() -> (key: DecryptionKey)
;

/// `xhpke::SecretKey::public_key` derives the public counterpart.
pub assume_specification[ DecryptionKey::public_key ](key: &DecryptionKey) -> (public:
    EncryptionKey)
    ensures
        public == xhpke_public(*key),
;

/// Cloning an `xhpke::SecretKey` copies its seed.
pub assume_specification[ <DecryptionKey as Clone>::clone ](key: &DecryptionKey) -> (copied:
    DecryptionKey)
    ensures
        copied == *key,
;

/// Cloning an `xhpke::PublicKey` copies the key.
pub assume_specification[ <EncryptionKey as Clone>::clone ](key: &EncryptionKey) -> (copied:
    EncryptionKey)
    ensures
        copied == *key,
;

/// Makes a signing key of its seed with `xdsa::SecretKey::from_bytes`, which takes
/// an array of the seed's size.
#[verifier::external_body]
pub(crate) fn seed_signing_key(seed: &[u8]) -> (key: SigningKey)
    requires
        seed@.len() == SIGNING_KEY_SIZE,
    ensures
        key == xdsa_seeded(seed@),
{
    SigningKey::from_bytes(seed.try_into().expect("size of a signing key"))
}

/// Makes a decryption key of its seed with `xhpke::SecretKey::from_bytes`, which
/// takes an array of the seed's size.
#[verifier::external_body]
pub(crate) fn seed_decryption_key(seed: &[u8]) -> (key: DecryptionKey)
    requires
        seed@.len() == DECRYPTION_KEY_SIZE,
    ensures
        key == xhpke_seeded(seed@),
{
    DecryptionKey::from_bytes(seed.try_into().expect("size of a decryption key"))
}

/// Encodes a verifying key with `xdsa::PublicKey::to_bytes`, which
/// `xdsa::PublicKey::from_bytes` gives the key back from.
#[verifier::external_body]
pub(crate) fn verifying_key_bytes(key: &VerifyingKey) -> (bytes: Vec<u8>)
    ensures
        bytes@ == xdsa_bytes(*key),
        bytes@.len() == VERIFYING_KEY_SIZE,
        xdsa_parsed(bytes@) == Some(*key),
{
    key.to_bytes().to_vec()
}

/// Parses a verifying key with `xdsa::PublicKey::from_bytes`, which takes an
/// array of the key's size.
#[verifier::external_body]
pub(crate) fn parse_verifying_key(bytes: &[u8]) -> (key: Result<VerifyingKey, SigningKeyError>)
    requires
        bytes@.len() == VERIFYING_KEY_SIZE,
    ensures
        match key {
            Ok(key) => xdsa_parsed(bytes@) == Some(key),
            Err(_) => xdsa_parsed(bytes@) is None,
        },
{
    VerifyingKey::from_bytes(bytes.try_into().expect("size of a verifying key"))
}

/// Encodes an encryption key with `xhpke::PublicKey::to_bytes`, which
/// `xhpke::PublicKey::from_bytes` gives the key back from.
#[verifier::external_body]
pub(crate) fn encryption_key_bytes(key: &EncryptionKey) -> (bytes: Vec<u8>)
    ensures
        bytes@ == xhpke_bytes(*key),
        bytes@.len() == ENCRYPTION_KEY_SIZE,
        xhpke_parsed(bytes@) == Some(*key),
{
    key.to_bytes().to_vec()
}

/// Parses an encryption key with `xhpke::PublicKey::from_bytes`, which takes an
/// array of the key's size.
#[verifier::external_body]
pub(crate) fn parse_encryption_key(bytes: &[u8]) -> (key: Result<EncryptionKey, ContextError>)
    requires
        bytes@.len() == ENCRYPTION_KEY_SIZE,
    ensures
        match key {
            Ok(key) => xhpke_parsed(bytes@) == Some(key),
            Err(_) => xhpke_parsed(bytes@) is None,
        },
{
    EncryptionKey::from_bytes(bytes.try_into().expect("size of an encryption key"))
}

/// Fingerprint of an encryption key, by `xhpke::PublicKey::fingerprint`.
#[verifier::external_body]
pub(crate) fn fingerprint(key: &EncryptionKey) -> (bytes: Vec<u8>)
    ensures
        bytes@ == xhpke_fingerprint(*key),
{
    key.fingerprint().to_bytes().to_vec()
}

/// Sets up a sending context with `xhpke::PublicKey::new_sender`, along with the
/// encapsulated key that the owner of the secret key needs to follow it. Both
/// are random. The encapsulation cannot fail under a key that is one, though the
/// call panics if the system has no randomness to give. That a receiving context
/// set up from the encapsulated key shares the key material rests on the key
/// exchange, which can fail with a negligible probability, and is left unsaid.
#[verifier::external_body]
pub(crate) fn new_sender(key: &EncryptionKey, domain: &str) -> (context: Result<
    (SealingContext, Vec<u8>),
    ContextError,
>)
    requires
        domain@.len() <= MAX_DOMAIN_SIZE,
    ensures
        match context {
            Ok(context) => {
                &&& xhpke_set_up(context.0, *key, domain@)
                &&& context.1@ == sender_encap(context.0)
                &&& context.1@.len() == ENCAP_KEY_SIZE
                &&& sealing::sender_sequence(context.0) == 0
            },
            Err(_) => false,
        },
{
    let (sender, encap) = key.new_sender(domain.as_bytes())?;
    Ok((sender, encap.to_vec()))
}

/// Sets up a receiving context with `xhpke::SecretKey::new_receiver`, which takes
/// an array of the encapsulated key's size. The decapsulation cannot fail: of a
/// key that was not encapsulated to this one it makes other key material.
#[verifier::external_body]
pub(crate) fn new_receiver(key: &DecryptionKey, encap: &[u8], domain: &str) -> (context: Result<
    OpeningContext,
    ContextError,
>)
    requires
        encap@.len() == ENCAP_KEY_SIZE,
        domain@.len() <= MAX_DOMAIN_SIZE,
    ensures
        match context {
            Ok(receiver) => {
                &&& xhpke_received(*key, encap@, domain@) == sealing::receiver_context(receiver)
                &&& sealing::receiver_sequence(receiver) == 0
            },
            Err(_) => false,
        },
{
    key.new_receiver(encap.try_into().expect("size of an encapsulated key"), domain.as_bytes())
}

} // verus!
