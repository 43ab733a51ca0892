//! Messages of the handshake, made and read by the two sides.

use darkbio_crypto::cwt::claims::{self, eat};
use darkbio_crypto::{cwt, xdsa, xhpke};
use darkbio_trust::device::HardwareClaims;
use darkbio_trust::CRYPTO_DOMAIN_DEVICE_ATTESTATION;
use std::cell::Cell;
use std::rc::Rc;
use wire::scripted::ark::{AckFlaw, Pending as Acking};
use wire::scripted::host::{craft_hello_with, Flaw, Strangers};
use wire::scripted::{cloud_attestation, frame, self_attestation, would_block};
use wire::server::{Server, Step};
use wire::transport::attestation::{Attestation, Attester};
use wire::transport::framing::FrameReader;
use wire::transport::handshake::{
    accept_ack, answer_keys, judge, open_ack, read_hello, Answerer, HelloKeys,
    CRYPTO_DOMAIN_WIRE_ARK_TO_HOST, CRYPTO_DOMAIN_WIRE_HOST_TO_ARK, HELLO_OVERHEAD, MAX_ACK_SIZE,
    MAX_PAIR_SIZE,
};
use wire::transport::io::ErrorKind;
use wire::transport::{Error, MAX_FRAME_SIZE};

/// Source of an attestation that counts how often it was asked.
struct Counting {
    attestation: Attestation,
    asked: Rc<Cell<usize>>,
}

impl Attester for Counting {
    fn attest(&mut self) -> Attestation {
        self.asked.set(self.asked.get() + 1);
        self.attestation.clone()
    }
}

/// Source of an attestation that must never be asked.
struct Silent;

impl Attester for Silent {
    fn attest(&mut self) -> Attestation {
        panic!("attester asked without a valid hello")
    }
}

/// Takes a server through its input until it writes or needs more of it.
fn written<A: Attester>(server: &mut Server<A>) -> Option<Vec<u8>> {
    loop {
        match server.next_message() {
            Step::Again => {}
            Step::Read => return None,
            Step::Write(bytes) => {
                assert!(server.sent(true).is_none());
                return Some(bytes);
            }
            Step::Message(_) => panic!("unexpected message"),
        }
    }
}

/// Packets of the frames in a stream of bytes.
fn packets(bytes: &[u8]) -> Vec<Vec<u8>> {
    let mut reader = FrameReader::new();
    reader.feed(bytes);
    let mut packets = Vec::new();
    while let Some(item) = reader.next_packet() {
        packets.push(item.unwrap().unwrap());
    }
    packets
}

// Tests that both sides of a handshake end up in one session, in either direction
// and over several messages.
#[test]
fn test_handshake_agrees() {
    let signer = xdsa::SecretKey::generate();
    let identity = signer.public_key();
    let hello = HelloKeys::generate();
    let keys = read_hello(&hello.hello()).unwrap();
    assert_eq!(keys.0.to_bytes(), hello.signer.public_key().to_bytes());
    assert_eq!(keys.1.to_bytes(), hello.crypto.public_key().to_bytes());

    let attestation = self_attestation(&signer);
    let (pending, answer) = answer_keys(keys, &signer, attestation.clone(), None).unwrap();
    assert!(hello.answered_by(&answer));
    assert!(!HelloKeys::generate().answered_by(&answer));

    let (signed, attested) = hello.read_answer(&answer, Answerer::Server).unwrap();
    assert_eq!(attested.as_bytes(), attestation.as_bytes());
    let (mut client, ack, info) =
        judge(hello, &signed, Ok((identity.clone(), 7u8)), None, Answerer::Server).unwrap();
    assert_eq!(info, 7);
    let mut server = accept_ack(pending, &ack, &identity).unwrap();
    for text in [&b"first"[..], b"", b"third"] {
        let packet = client.seal(text).unwrap();
        assert_eq!(packet.len(), text.len() + 16);
        assert_eq!(server.open(&packet).unwrap(), text);
        let packet = server.seal(text).unwrap();
        assert_eq!(client.open(&packet).unwrap(), text);
    }
    // A packet out of its position does not open
    let skipped = client.seal(b"skipped").unwrap();
    let packet = client.seal(b"next").unwrap();
    assert!(matches!(server.open(&packet), Err(Error::EncryptionFailed(_))));
    assert_eq!(server.open(&skipped).unwrap(), b"skipped");
    assert_eq!(server.open(&packet).unwrap(), b"next");
}

// Tests that a verdict against the attestation ends the handshake for its reason, and
// that one for another identity fails over the signature.
#[test]
fn test_handshake_verdicts() {
    let signer = xdsa::SecretKey::generate();
    let hello = HelloKeys::generate();
    let keys = read_hello(&hello.hello()).unwrap();
    let (_, answer) = answer_keys(keys, &signer, self_attestation(&signer), None).unwrap();
    let (signed, _) = hello.read_answer(&answer, Answerer::Server).unwrap();

    let verdict: Result<(xdsa::PublicKey, ()), String> = Err("never seen it".to_string());
    assert!(matches!(
        judge(hello.clone(), &signed, verdict, None, Answerer::Server),
        Err(Error::HandshakeFailed(reason)) if reason == "never seen it"
    ));
    let stranger = xdsa::SecretKey::generate().public_key();
    assert!(matches!(
        judge(hello.clone(), &signed, Ok((stranger.clone(), ())), None, Answerer::Server),
        Err(Error::HandshakeFailed(reason))
            if reason.starts_with("server hello signature invalid: ")
    ));
    assert!(matches!(
        judge(hello.clone(), &signed, Ok((stranger, ())), None, Answerer::Ark),
        Err(Error::HandshakeFailed(reason)) if reason.starts_with("ark hello signature invalid: ")
    ));
    assert!(matches!(
        HelloKeys::generate().read_answer(&answer, Answerer::Ark),
        Err(Error::HandshakeFailed(reason)) if reason.starts_with("failed to decrypt ark hello: ")
    ));
    assert!(judge(hello, &signed, Ok((signer.public_key(), ())), None, Answerer::Server).is_ok());
}

// Tests the bounds on the sizes of the handshake messages, which leave room for every
// one of them in a frame.
#[test]
fn test_handshake_message_sizes() {
    let signer = xdsa::SecretKey::generate();
    let hello = HelloKeys::generate();
    let packet = hello.hello();
    assert!(packet.len() <= MAX_PAIR_SIZE);
    assert_eq!(packet.len(), 1984 + 1216 + 7);

    let attestation = self_attestation(&signer);
    let size = attestation.as_bytes().len();
    let keys = read_hello(&packet).unwrap();
    let (_, answer) = answer_keys(keys, &signer, attestation, None).unwrap();
    assert!(answer.len() > size + 1216 + 1120);
    assert!(answer.len() <= size + HELLO_OVERHEAD);

    let (signed, _) = hello.read_answer(&answer, Answerer::Server).unwrap();
    let verdict = Ok((signer.public_key(), ()));
    let (_, ack, _) = judge(hello, &signed, verdict, None, Answerer::Server).unwrap();
    assert!(ack.len() > 1120);
    assert!(ack.len() <= MAX_ACK_SIZE);
    assert!(frame(&ack).len() <= MAX_FRAME_SIZE);
}

// Tests that the attester is asked once for each valid hello, and its attestation
// presented.
#[test]
fn test_attester_is_asked() {
    let signer = xdsa::SecretKey::generate();
    let attestation = self_attestation(&signer);
    let asked = Rc::new(Cell::new(0));
    let counting = Counting { attestation: attestation.clone(), asked: asked.clone() };
    let mut server = Server::new(signer, counting);
    for round in 0..2 {
        let hello = HelloKeys::generate();
        server.feed(&[0, 0]);
        server.feed(&frame(&hello.hello()));
        let bytes = written(&mut server).unwrap();
        let (_, attested) = hello.read_answer(&packets(&bytes)[0], Answerer::Server).unwrap();
        assert_eq!(attested.as_bytes(), attestation.as_bytes());
        assert_eq!(asked.get(), round + 1);
    }
}

// Tests that the attester is not asked over anything that is no hello.
#[test]
fn test_attester_is_not_asked() {
    let mut server = Server::new(xdsa::SecretKey::generate(), Silent);
    server.feed(&[0, 0]);
    server.feed(&frame(b"not a hello"));
    assert_eq!(written(&mut server), Some(vec![0]));
    server.feed(&frame(b"nor a session"));
    assert_eq!(written(&mut server), Some(vec![0]));
}

// Tests that the attestations of the scripted exchanges have the shape they claim.
#[test]
fn test_scripted_attestations() {
    let signer = xdsa::SecretKey::generate();
    let device = self_attestation(&signer);
    assert!(Attestation::new(device.into_bytes()).is_ok());
    let cloud = cloud_attestation(&signer);
    assert!(!cloud.is_empty());
    assert!(matches!(Attestation::new(cloud), Err(Error::InvalidAttestation)));
}

// Tests that an ack for another encryption key or identity is refused.
#[test]
fn test_ack_refused() {
    let signer = xdsa::SecretKey::generate();
    let identity = signer.public_key();
    let hello = HelloKeys::generate();
    let keys = read_hello(&hello.hello()).unwrap();
    let (pending, answer) = answer_keys(keys, &signer, self_attestation(&signer), None).unwrap();
    let (signed, _) = hello.read_answer(&answer, Answerer::Server).unwrap();
    let (_, ack, _) = judge(hello, &signed, Ok((identity, ())), None, Answerer::Server).unwrap();
    let stranger = xdsa::SecretKey::generate().public_key();
    assert!(matches!(
        accept_ack(pending, &ack, &stranger),
        Err(Error::HandshakeFailed(reason)) if reason.starts_with("invalid client ack: ")
    ));
}

// Tests the error that a read fails with when a script yields.
#[test]
fn test_script_yields() {
    assert_eq!(would_block(), ErrorKind::WouldBlock);
}

/// Attestation of a device whose serial number has a length.
fn lengthy_attestation(signer: &xdsa::SecretKey, length: usize) -> Attestation {
    let claims = HardwareClaims {
        sub: claims::Subject { sub: "x".repeat(length) },
        cnf: claims::Confirm::new(signer.public_key()),
        nbf: claims::NotBefore { nbf: 0 },
        iat: claims::IssuedAt { iat: 0 },
        oem: eat::Oemid::new_pen(0),
        hwm: eat::HwModel { hw_model: Vec::new() },
        hwv: eat::HwVersion::new(String::new()),
    };
    Attestation::new(cwt::issue(&claims, signer, CRYPTO_DOMAIN_DEVICE_ATTESTATION).unwrap())
        .unwrap()
}

// Tests that a valid hello is refused if the attestation presented is as long as a frame,
// and answered if it leaves room for the rest.
#[test]
fn test_long_attestation_refused() {
    let signer = xdsa::SecretKey::generate();
    for (length, refused) in [(1000, false), (MAX_FRAME_SIZE, true)] {
        let attestation = lengthy_attestation(&signer, length);
        let mut server = Server::new(signer.clone(), attestation);
        server.feed(&[0, 0]);
        server.feed(&frame(&HelloKeys::generate().hello()));
        let bytes = written(&mut server).unwrap();
        assert_eq!(bytes == [0], refused, "length {length}");
        assert_eq!(bytes.len() > length, !refused, "length {length}");
    }
}

// Tests that an ack is flawed by the keys given: one that is made of the right keys in
// place of strangers' is accepted, and one of strangers' keys refused.
#[test]
fn test_flawed_acks() {
    let identity = xdsa::SecretKey::generate().public_key();
    let key = xhpke::SecretKey::generate();
    let keys = HelloKeys::generate();
    let host_signer = keys.signer.public_key();
    let domain = CRYPTO_DOMAIN_WIRE_ARK_TO_HOST.as_bytes();
    let (_, encap) = keys.crypto.public_key().new_sender(domain).unwrap();
    let receiver = keys.crypto.new_receiver(&encap, domain).unwrap();
    let pending = Acking { ark_crypto: key.public_key(), receiver, keys };

    let (_, encap) =
        key.public_key().new_sender(CRYPTO_DOMAIN_WIRE_HOST_TO_ARK.as_bytes()).unwrap();
    let accepted = |flaw: AckFlaw, other: &xhpke::PublicKey, stranger: &xdsa::SecretKey| {
        let ack = pending.bad_ack_with(&identity, flaw, encap.to_vec(), other, stranger).unwrap();
        open_ack(&key, &host_signer, &ack, &identity).is_ok()
    };
    let other = xhpke::SecretKey::generate().public_key();
    let stranger = xdsa::SecretKey::generate();
    let right = (key.public_key(), pending.keys.signer.clone());
    for flaw in [AckFlaw::Auth, AckFlaw::Signer] {
        assert!(accepted(flaw, &right.0, &right.1), "{flaw:?}");
        assert!(!accepted(flaw, &other, &stranger), "{flaw:?}");
    }
    assert!(accepted(AckFlaw::Auth, &right.0, &stranger));
    assert!(accepted(AckFlaw::Signer, &other, &right.1));
    for flaw in [AckFlaw::Tampered, AckFlaw::Payload, AckFlaw::Encap] {
        assert!(!accepted(flaw, &right.0, &right.1), "{flaw:?}");
    }
    for flaw in
        [AckFlaw::Tampered, AckFlaw::Auth, AckFlaw::Signer, AckFlaw::Payload, AckFlaw::Encap]
    {
        let ack = pending.bad_ack(&identity, flaw).unwrap();
        assert!(open_ack(&key, &host_signer, &ack, &identity).is_err(), "{flaw:?}");
    }
}

// Tests that an ArkHello is flawed by the keys given: one that is made of the right keys in
// place of strangers' is accepted, and one of strangers' keys refused or not for the host.
#[test]
fn test_flawed_ark_hellos() {
    let identity = xdsa::SecretKey::generate();
    let attestation = self_attestation(&identity);
    let hello = HelloKeys::generate();
    let keys = read_hello(&hello.hello()).unwrap();
    let made = |flaw: Flaw, others: &Strangers| {
        let key = xhpke::SecretKey::generate();
        let (sender, encap) =
            keys.1.new_sender(CRYPTO_DOMAIN_WIRE_ARK_TO_HOST.as_bytes()).unwrap();
        let (packet, pending) = craft_hello_with(
            &identity,
            &attestation,
            &keys,
            flaw,
            key,
            sender,
            encap.to_vec(),
            others,
        )
        .unwrap();
        assert_eq!(pending.host_signer.to_bytes(), keys.0.to_bytes());
        packet
    };
    let accepted = |packet: &[u8]| match hello.read_answer(packet, Answerer::Ark) {
        Ok((signed, _)) => hello.accept(&signed, &identity.public_key(), Answerer::Ark).is_ok(),
        Err(_) => false,
    };
    let others = Strangers {
        host: xdsa::SecretKey::generate().public_key(),
        signer: xdsa::SecretKey::generate(),
        crypto: xhpke::SecretKey::generate().public_key(),
    };
    let right =
        Strangers { host: keys.0.clone(), signer: identity.clone(), crypto: keys.1.clone() };
    assert!(accepted(&made(Flaw::Intact, &others)));
    for flaw in [Flaw::Auth, Flaw::Signer, Flaw::Stale] {
        let packet = made(flaw, &others);
        assert!(!accepted(&packet), "{flaw:?}");
        assert_eq!(hello.answered_by(&packet), flaw != Flaw::Stale, "{flaw:?}");
        assert!(accepted(&made(flaw, &right)), "{flaw:?}");
    }
    for flaw in [Flaw::Tampered, Flaw::Payload, Flaw::Key, Flaw::Encap, Flaw::Attest] {
        let packet = made(flaw, &right);
        assert!(!accepted(&packet), "{flaw:?}");
        assert!(hello.answered_by(&packet), "{flaw:?}");
    }
}
