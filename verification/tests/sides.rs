//! The two real sides of the wire against each other.

use darkbio_crypto::cwt;
use darkbio_crypto::cwt::claims::{self, eat};
use darkbio_crypto::{xdsa, xhpke};
use darkbio_trust::cloud::SignerClaims;
use darkbio_trust::device::{Device, EmulatorClaims, HardwareClaims};
use darkbio_trust::{Realm, CRYPTO_DOMAIN_DEVICE_ATTESTATION};
use std::time::{SystemTime, UNIX_EPOCH};
use wire::scripted::{frame, self_attestation};
use wire::server::Step;
use wire::side_ark::ArkSide;
use wire::side_host::{HostSide, Progress};
use wire::transport::attestation::Attestation;
use wire::transport::client::{Client, Progress as ClientProgress};
use wire::transport::handshake::{self, HelloKeys};
use wire::transport::io::ErrorKind;
use wire::transport::outbound::{Outbound, Side};
use wire::transport::sender::Sender;
use wire::transport::server::{Event, Server, Step as ServerStep};
use wire::transport::trust::{Roots, Verifier};
use wire::transport::{Error, MAX_FRAME_SIZE, MAX_MESSAGE_SIZE};

/// Encodes a tag as eight big-endian bytes to identify a test message.
fn payload(tag: u64) -> Vec<u8> {
    tag.to_be_bytes().to_vec()
}

/// A pair of contexts standing in for one direction of an established session.
fn contexts() -> (xhpke::Sender, xhpke::Receiver) {
    let secret = xhpke::SecretKey::generate();
    let (sender, encap) = secret.public_key().new_sender(b"test").unwrap();
    let receiver = secret.new_receiver(&encap, b"test").unwrap();
    (sender, receiver)
}

/// Verifier refusing every attestation.
struct Untrusting;

impl Verifier for Untrusting {
    type Info = ();

    fn verify(&self, _: &Attestation) -> Result<(xdsa::PublicKey, ()), String> {
        Err("attestation rejected".to_string())
    }
}

/// Verifier that must never be consulted.
struct Unreachable;

impl Verifier for Unreachable {
    type Info = ();

    fn verify(&self, _: &Attestation) -> Result<(xdsa::PublicKey, ()), String> {
        panic!("verifier consulted with a malformed attestation")
    }
}

/// An Ark that echoes every request, and a host, connected by two buffers.
struct Pair {
    ark: ArkSide<Attestation>,
    host: HostSide,
    to_ark: Vec<u8>,
    to_host: Vec<u8>,
    requests: Vec<Vec<u8>>,
    broken: bool, // Whether the host's writes fail
}

impl Pair {
    fn new(signer: xdsa::SecretKey, attestation: Attestation) -> Self {
        Pair {
            ark: ArkSide::new(signer, attestation),
            host: HostSide::new(),
            to_ark: Vec::new(),
            to_host: Vec::new(),
            requests: Vec::new(),
            broken: false,
        }
    }

    /// Lets the Ark take in what was sent to it.
    fn serve(&mut self) {
        self.ark.feed(&std::mem::take(&mut self.to_ark));
        loop {
            match self.ark.next_message() {
                Step::Read => return,
                Step::Again => {}
                Step::Write(bytes) => {
                    self.to_host.extend_from_slice(&bytes);
                    assert!(self.ark.sent(true).is_none());
                }
                Step::Message(message) => {
                    let reply = self.ark.send_message(&message).unwrap();
                    self.to_host.extend_from_slice(&reply);
                    assert!(self.ark.sent(true).is_none());
                    self.requests.push(message);
                }
            }
        }
    }

    /// Writes output of the host.
    fn write(&mut self, bytes: Vec<u8>) -> Result<(), Error> {
        if self.broken {
            self.host.sent(false);
            return Err(Error::SendFailed(ErrorKind::BrokenPipe));
        }
        self.to_ark.extend_from_slice(&bytes);
        self.host.sent(true);
        Ok(())
    }

    /// Reads for the host, failing at the end of what the Ark has to say.
    fn read(&mut self) -> Result<(), Error> {
        self.serve();
        if self.to_host.is_empty() {
            self.host.interrupt();
            return Err(Error::Terminated);
        }
        self.host.feed(&std::mem::take(&mut self.to_host));
        Ok(())
    }

    /// Runs a handshake of the host.
    fn handshake<V: Verifier>(&mut self, verifier: &V) -> Result<V::Info, Error> {
        loop {
            match self.host.handshake(verifier) {
                Progress::Read => self.read()?,
                Progress::Again => {}
                Progress::Write(bytes) => self.write(bytes)?,
                Progress::Ack(bytes, info) => {
                    self.write(bytes)?;
                    return Ok(info);
                }
                Progress::Failed(error) => return Err(error),
            }
        }
    }

    /// Sends a message of the host.
    fn send(&mut self, message: &[u8]) -> Result<(), Error> {
        let bytes = self.host.send_message(message)?;
        self.write(bytes)
    }

    /// Receives a message of the host.
    fn next_message(&mut self) -> Result<Vec<u8>, Error> {
        loop {
            match self.host.next_message() {
                Some(result) => return result,
                None => self.read()?,
            }
        }
    }
}

/// An Ark with a self-signed attestation, its identity and a host.
fn pair() -> (Pair, xdsa::PublicKey) {
    let signer = xdsa::SecretKey::generate();
    let identity = signer.public_key();
    let attestation = self_attestation(&signer);
    (Pair::new(signer, attestation), identity)
}

// Tests a full round trip, the handshake, a host-to-ark request and the ark-to-host
// response, and that the device attestation reaches the host's verifier byte-for-byte.
#[test]
fn side_ark_test_message_round_trip() {
    let signer = xdsa::SecretKey::generate();
    let identity = signer.public_key();
    let attestation = self_attestation(&signer);
    let presented = attestation.clone();
    let mut pair = Pair::new(signer, attestation);

    let attest = pair.handshake(&identity).unwrap();
    assert_eq!(attest.as_bytes(), presented.as_bytes(), "attestation mismatch");
    pair.send(&payload(42)).unwrap();
    pair.serve();
    assert_eq!(pair.requests, vec![payload(42)], "request mismatch");
    assert_eq!(pair.next_message().unwrap(), payload(42), "response mismatch");
}

// Tests that a session reset mid-transfer (after a successful handshake and message
// exchange) correctly tears down the old session and allows a fresh handshake to
// establish a new one.
#[test]
fn test_reset_mid_transfer() {
    let (mut pair, identity) = pair();

    // Session 1: complete handshake, exchange one message.
    pair.handshake(&identity).unwrap();
    pair.send(&payload(1)).unwrap();
    assert_eq!(pair.next_message().unwrap(), payload(1), "session 1 response mismatch");

    // Simulate an interrupted transfer by sending a valid COBS frame with a garbage
    // payload, which the Ark fails to decrypt and drops the session over.
    pair.to_ark.extend_from_slice(&frame(b"interrupted transfer"));

    // Session 2: new handshake on the same wire, exchange one message.
    pair.handshake(&identity).unwrap();
    pair.send(&payload(2)).unwrap();
    assert_eq!(pair.next_message().unwrap(), payload(2), "session 2 response mismatch");
    assert_eq!(pair.requests, vec![payload(1), payload(2)], "ark received wrong messages");
}

// Tests that a response the host never read (e.g. after timing out on it) does not
// wedge subsequent handshakes. The Ark answers the request before it processes the
// reset, so the stale response precedes the fresh ArkHello and the host must skip past
// it.
#[test]
fn test_reset_unread_response() {
    let (mut pair, identity) = pair();

    // Session 1: complete handshake, send a message but never read the response.
    pair.handshake(&identity).unwrap();
    pair.send(&payload(1)).unwrap();

    // Session 2: new handshake on the same wire with the unread response still queued
    // in front of the ArkHello, exchange one message.
    pair.handshake(&identity).unwrap();
    pair.send(&payload(2)).unwrap();
    assert_eq!(pair.next_message().unwrap(), payload(2), "session 2 response mismatch");
    assert_eq!(pair.requests, vec![payload(1), payload(2)], "ark received wrong messages");
}

// Tests that a session reset mid-handshake (after HostHello/ArkHello but before
// HostAck) correctly aborts the in-progress handshake and allows a fresh one to
// complete, with the abandoned ArkHello left unread for the fresh handshake to skip
// past.
#[test]
fn test_reset_mid_handshake() {
    let (mut pair, identity) = pair();

    // Start a handshake but abandon it after sending HostHello, never reading ArkHello
    // nor sending HostAck.
    pair.to_ark.extend_from_slice(&[0x00, 0x00]);
    pair.to_ark.extend_from_slice(&frame(&HelloKeys::generate().hello()));

    // Now do a complete handshake (sends its own reset + full 3 messages). The Ark sees
    // the reset where it expected HostAck and starts over. The host skips the stale
    // ArkHello of the abandoned attempt to find its own.
    pair.handshake(&identity).unwrap();
    pair.send(&payload(99)).unwrap();
    assert_eq!(pair.next_message().unwrap(), payload(99), "response mismatch");
    assert_eq!(pair.requests, vec![payload(99)], "request mismatch");
}

// Tests that garbage sent instead of a handshake hello (after a session reset) aborts
// the in-progress handshake without wedging the Ark, allowing a fresh handshake to
// complete.
#[test]
fn test_reset_malformed_hello() {
    let (mut pair, identity) = pair();

    // Signal a session reset, but follow it up with a garbage hello. The Ark fails to
    // decode it, abandons the handshake and returns to its message loop.
    pair.to_ark.extend_from_slice(&[0x00, 0x00]);
    pair.to_ark.extend_from_slice(&frame(b"not a hello"));

    // Now do a complete handshake and exchange one message.
    pair.handshake(&identity).unwrap();
    pair.send(&payload(99)).unwrap();
    assert_eq!(pair.next_message().unwrap(), payload(99), "response mismatch");
    assert_eq!(pair.requests, vec![payload(99)], "request mismatch");
}

/// Handshakes with a verifier that refuses the attestation.
fn verifier_rejects() {
    let (mut pair, _) = pair();
    let result = pair.handshake(&Untrusting);
    assert!(
        matches!(&result, Err(Error::HandshakeFailed(reason)) if reason.contains("rejected")),
        "expected rejected handshake"
    );
    assert!(pair.requests.is_empty());
}

// Tests that an untrusting verifier rejects the session on the host side.
#[test]
fn side_ark_test_verifier_rejects() {
    verifier_rejects();
}

/// Attestation of a hardware device under a root.
fn hardware_attestation(key: &xdsa::SecretKey, root: &xdsa::SecretKey, now: u64) -> Attestation {
    cwt::issue(
        &HardwareClaims {
            sub: claims::Subject { sub: "ark-1234".into() },
            cnf: claims::Confirm::new(key.public_key()),
            nbf: claims::NotBefore { nbf: now - 10 },
            iat: claims::IssuedAt { iat: now - 10 },
            oem: eat::Oemid::new_pen(65145),
            hwm: eat::HwModel { hw_model: b"Ark I".to_vec() },
            hwv: eat::HwVersion::new("Ark I - 1.0.0".into()),
        },
        root,
        CRYPTO_DOMAIN_DEVICE_ATTESTATION,
    )
    .map(|cwt| Attestation::new(cwt).unwrap())
    .unwrap()
}

/// Attestation of an emulated device under a root.
fn emulator_attestation(key: &xdsa::SecretKey, root: &xdsa::SecretKey, now: u64) -> Attestation {
    cwt::issue(
        &EmulatorClaims {
            sub: claims::Subject { sub: "emu-1234".into() },
            cnf: claims::Confirm::new(key.public_key()),
            nbf: claims::NotBefore { nbf: now - 10 },
            exp: claims::Expiration { exp: now + 1000 },
            iat: claims::IssuedAt { iat: now - 10 },
            oem: eat::Oemid::new_pen(65145),
            hwm: eat::HwModel { hw_model: b"Ark I".to_vec() },
            hwv: eat::HwVersion::new("Ark I - 1.0.0".into()),
        },
        root,
        CRYPTO_DOMAIN_DEVICE_ATTESTATION,
    )
    .map(|cwt| Attestation::new(cwt).unwrap())
    .unwrap()
}

/// Runs the handshakes of devices that trusted roots attested, or did not.
fn roots_verifier(
    handshake: fn(
        xdsa::SecretKey,
        Attestation,
        &[xdsa::PublicKey],
        &[xdsa::PublicKey],
        u64,
    ) -> Result<Device, Error>,
) {
    let now = SystemTime::now().duration_since(UNIX_EPOCH).unwrap().as_secs();
    let hardware_root = xdsa::SecretKey::generate();
    let emulator_root = xdsa::SecretKey::generate();
    let hardware_roots = [hardware_root.public_key()];
    let emulator_roots = [emulator_root.public_key()];

    // A hardware device attested by a hardware root is accepted with its identity
    let signer = xdsa::SecretKey::generate();
    let attestation = hardware_attestation(&signer, &hardware_root, now);
    let device = handshake(signer, attestation.clone(), &hardware_roots, &[], now).unwrap();
    assert_eq!(device.realm, Realm::Hardware, "realm mismatch");
    assert_eq!(device.serial, "ark-1234", "serial mismatch");

    // The same attestation is refused by a host trusting only emulator roots, and from
    // a device with another key
    let signer = xdsa::SecretKey::generate();
    assert!(
        handshake(signer, attestation.clone(), &[], &emulator_roots, now).is_err(),
        "hardware attestation accepted under emulator roots"
    );
    let signer = xdsa::SecretKey::generate();
    assert!(handshake(signer, attestation, &hardware_roots, &[], now).is_err());

    // An emulated device attested by an emulator root is accepted with its expiry
    let signer = xdsa::SecretKey::generate();
    let attestation = emulator_attestation(&signer, &emulator_root, now);
    let device =
        handshake(signer, attestation, &hardware_roots, &emulator_roots, now).unwrap();
    assert_eq!(device.realm, Realm::Emulator, "realm mismatch");
    assert_eq!(device.expiry, Some(now + 1000), "expiry mismatch");

    // One that expired is refused
    let signer = xdsa::SecretKey::generate();
    let attestation = emulator_attestation(&signer, &emulator_root, now);
    assert!(handshake(signer, attestation, &[], &emulator_roots, now + 1001).is_err());

    // A never onboarded device presenting a self-signed attestation is refused
    let signer = xdsa::SecretKey::generate();
    let attestation = self_attestation(&signer);
    assert!(
        handshake(signer, attestation, &hardware_roots, &emulator_roots, now).is_err(),
        "self-signed attestation accepted"
    );
}

/// Drives a handshake with an Ark presenting the attestation and the host trusting the
/// roots, returning the host's verdict.
fn host_handshake(
    signer: xdsa::SecretKey,
    attestation: Attestation,
    hardware: &[xdsa::PublicKey],
    emulator: &[xdsa::PublicKey],
    now: u64,
) -> Result<Device, Error> {
    Pair::new(signer, attestation).handshake(&Roots { hardware, emulator, now })
}

// Tests that the roots verifier opens sessions with root attested Arks of either realm,
// handing back their verified identity, and refuses Arks attested under unknown roots
// or self-signed ones.
#[test]
fn side_ark_test_roots_verifier() {
    roots_verifier(host_handshake);
}

/// Makes attestations of every shape.
fn attestation_shapes() {
    let signer = xdsa::SecretKey::generate();
    self_attestation(&signer);

    let emulator = EmulatorClaims {
        sub: claims::Subject { sub: "".into() },
        cnf: claims::Confirm::new(signer.public_key()),
        nbf: claims::NotBefore { nbf: 0 },
        exp: claims::Expiration { exp: u64::MAX },
        iat: claims::IssuedAt { iat: 0 },
        oem: eat::Oemid::new_pen(0),
        hwm: eat::HwModel { hw_model: vec![] },
        hwv: eat::HwVersion::new("".into()),
    };
    let token = cwt::issue(&emulator, &signer, CRYPTO_DOMAIN_DEVICE_ATTESTATION).unwrap();
    let attestation = Attestation::new(token.clone()).expect("emulator attestation refused");
    assert_eq!(attestation.as_bytes(), token);
    assert_eq!(attestation.into_bytes(), token);

    let cloud = SignerClaims {
        iss: claims::Issuer { iss: "".into() },
        sub: claims::Subject { sub: "".into() },
        nbf: claims::NotBefore { nbf: 0 },
        exp: claims::Expiration { exp: 1 },
        cnf: claims::Confirm::new(signer.public_key()),
    };
    let token = cwt::issue(&cloud, &signer, CRYPTO_DOMAIN_DEVICE_ATTESTATION).unwrap();
    assert!(
        matches!(Attestation::new(token), Err(Error::InvalidAttestation)),
        "cloud attestation accepted as device attestation"
    );
    assert!(
        matches!(Attestation::new(b"junk".to_vec()), Err(Error::InvalidAttestation)),
        "junk accepted as device attestation"
    );
}

// Tests that only CWTs in a device attestation shape are accepted as attestations, junk
// and other token shapes being refused up front.
#[test]
fn side_ark_test_attestation_shapes() {
    attestation_shapes();
}

// Tests that the host refuses a malformed attestation before consulting its verifier. A
// misbehaving Ark presents what it could not have made an attestation of.
#[test]
fn test_malformed_attestation_rejected() {
    let identity = xdsa::SecretKey::generate();
    let server = xhpke::SecretKey::generate();
    let mut host = HostSide::new();
    assert!(matches!(host.handshake(&Unreachable), Progress::Write(_)));
    host.sent(true);
    let hello = match host.handshake(&Unreachable) {
        Progress::Write(bytes) => bytes,
        _ => panic!("hello expected"),
    };
    host.sent(true);

    let mut packet = vec![0; darkbio_cobs::decode_buffer(hello.len() - 1)];
    let size = darkbio_cobs::decode(&hello[..hello.len() - 1], &mut packet).unwrap();
    packet.truncate(size);
    let (_, crypto) = handshake::read_hello(&packet).unwrap();
    let (_, encap) = crypto.new_sender(b"wire-v1:ark-to-host").unwrap();
    let answer = handshake::seal_message(
        handshake::encode_ark_hello(b"junk".to_vec(), &server.public_key(), encap.to_vec()),
        packet,
        &identity,
        &crypto,
        None,
    )
    .unwrap();
    host.feed(&frame(&answer));
    assert!(
        matches!(
            host.handshake(&Unreachable),
            Progress::Failed(Error::InvalidAttestation)
        ),
        "malformed attestation not rejected"
    );
}

// Tests that a transport failure after sealing drops the session, since the peer's HPKE
// sequence can no longer be caught up with, and that a fresh handshake recovers the
// wire.
#[test]
fn test_send_failure_drops_session() {
    let (mut pair, identity) = pair();
    pair.handshake(&identity).unwrap();

    // Break the transport and send a message. It gets sealed, fails to go out, and must
    // take the session down with it.
    pair.broken = true;
    let result = pair.send(&payload(1));
    assert!(matches!(result, Err(Error::SendFailed(_))), "expected send failure");
    let result = pair.send(&payload(2));
    assert!(matches!(result, Err(Error::EncryptionFailed(_))), "expected dropped session");

    // Heal the transport, a fresh handshake resynchronizes both sides.
    pair.broken = false;
    pair.handshake(&identity).unwrap();
    pair.send(&payload(3)).unwrap();
    assert_eq!(pair.next_message().unwrap(), payload(3), "response mismatch");
    assert_eq!(pair.requests, vec![payload(3)], "request mismatch");
}

// Tests that an Ark's message that cannot be written takes its session down and is
// followed by a signal, and that an oversized one is refused with the session kept.
#[test]
fn test_ark_send_failures() {
    let (mut pair, identity) = pair();
    let refusal = pair.ark.send_message(&payload(1)).unwrap_err();
    assert!(matches!(refusal.error, Error::EncryptionFailed(_)));
    assert!(refusal.signal.is_none());
    pair.handshake(&identity).unwrap();
    pair.serve();

    let refusal = pair.ark.send_message(&vec![0; MAX_MESSAGE_SIZE + 1]).unwrap_err();
    assert!(matches!(refusal.error, Error::PacketTooLarge(_)));
    assert!(refusal.signal.is_none());
    let torn = pair.ark.send_message(&payload(2)).unwrap();
    assert_eq!(pair.ark.sent(false), Some(vec![0, 0]));
    assert!(pair.ark.sent(true).is_none());
    assert!(pair.ark.send_message(&payload(3)).is_err());

    // Half of the message arrives, ended by the signal
    pair.to_host.extend_from_slice(&torn[..5]);
    pair.to_host.extend_from_slice(&[0, 0]);
    assert!(pair.next_message().is_err());
}

// Tests the two real sides against each other. The handshake hands the attestation to
// the client's verifier unchanged and a request gets its response. The server's signal
// for a dropped session then surfaces on the client as a reset, which a fresh handshake
// recovers from.
#[test]
fn server_test_message_round_trip() {
    let signer = xdsa::SecretKey::generate();
    let identity = signer.public_key();
    let attestation = self_attestation(&signer);
    let presented = attestation.clone();
    let mut pair = Pair::new(signer, attestation);

    // Session 1: handshake, checking the attestation, exchange one message.
    let attest = pair.handshake(&identity).unwrap();
    assert_eq!(attest.as_bytes(), presented.as_bytes());
    pair.send(&payload(1)).unwrap();
    assert_eq!(pair.next_message().unwrap(), payload(1));

    // Inject a frame the server cannot decrypt. It drops the session and signals it, the
    // client surfacing the signal as a reset on its next read and refusing to send into
    // the dead session afterwards.
    pair.to_ark.extend_from_slice(&frame(b"interrupted transfer"));
    let result = pair.next_message();
    assert!(matches!(result, Err(Error::SessionReset)), "{:?}", result);
    let result = pair.send(&payload(2));
    assert!(matches!(result, Err(Error::EncryptionFailed(_))), "{:?}", result);

    // Session 2: new handshake on the same wire, exchange one message.
    pair.handshake(&identity).unwrap();
    pair.send(&payload(2)).unwrap();
    assert_eq!(pair.next_message().unwrap(), payload(2));
    assert_eq!(pair.requests, vec![payload(1), payload(2)]);
}

// Tests that an untrusting verifier rejects the session on the client side.
#[test]
fn server_test_verifier_rejects() {
    verifier_rejects();
}

// Tests that the roots verifier opens sessions with root attested servers of either
// realm, handing back their verified identity. Servers attested under unknown roots or
// self-signed ones are refused.
#[test]
fn server_test_roots_verifier() {
    roots_verifier(host_handshake);
}

// Tests that only CWTs in a device attestation shape are accepted as attestations, junk
// and other token shapes being refused up front.
#[test]
fn server_test_attestation_shapes() {
    attestation_shapes();
}

/// A server and a client of the session transport, connected by two buffers. The
/// server echoes every request.
struct Wire {
    server: Server<Attestation>,
    server_out: Outbound,
    server_sender: Option<Sender>,
    client: Client,
    client_out: Outbound,
    to_server: Vec<u8>,
    to_client: Vec<u8>,
    requests: Vec<Vec<u8>>,
    broken: bool, // Whether the client's writes fail
}

impl Wire {
    fn new(signer: xdsa::SecretKey, attestation: Attestation) -> Self {
        Wire {
            server: Server::new(signer, attestation),
            server_out: Outbound::new(Side::Server),
            server_sender: None,
            client: Client::new(),
            client_out: Outbound::new(Side::Client),
            to_server: Vec::new(),
            to_client: Vec::new(),
            requests: Vec::new(),
            broken: false,
        }
    }

    /// Sends a message of the server.
    fn push(&mut self, message: &[u8]) {
        let bytes = self.server_sender.unwrap().send(&mut self.server_out, message).unwrap();
        self.to_client.extend_from_slice(&bytes);
        assert!(self.server_out.sent(Ok(())).is_none());
    }

    /// Lets the server take in what was sent to it.
    fn serve(&mut self) {
        self.server.feed(&std::mem::take(&mut self.to_server));
        loop {
            match self.server.recv(&mut self.server_out, 0) {
                ServerStep::Read(_) => return,
                ServerStep::Again => {}
                ServerStep::Write(bytes, _) => {
                    self.to_client.extend_from_slice(&bytes);
                    assert!(self.server.sent(&mut self.server_out, Ok(())).is_none());
                }
                ServerStep::Event(Event::Connected(sender)) => self.server_sender = Some(sender),
                ServerStep::Event(Event::Disconnected) => self.server_sender = None,
                ServerStep::Event(Event::Message(message)) => {
                    self.push(&message);
                    self.requests.push(message);
                }
                ServerStep::Failed(error) => panic!("server failed: {:?}", error),
            }
        }
    }

    /// Reads for the client, failing at the end of what the server has to say.
    fn read(&mut self) -> Result<(), Error> {
        self.serve();
        if self.to_client.is_empty() {
            self.client.interrupt(&mut self.client_out);
            return Err(Error::Terminated);
        }
        self.client.feed(&std::mem::take(&mut self.to_client));
        Ok(())
    }

    /// Writes output of the client's handshake.
    fn write(&mut self, bytes: Vec<u8>) -> Result<(), Error> {
        if self.broken {
            return self.client.sent(&mut self.client_out, Err(ErrorKind::Other));
        }
        self.to_server.extend_from_slice(&bytes);
        self.client.sent(&mut self.client_out, Ok(()))
    }

    /// Connects the client.
    fn connect<V: Verifier>(&mut self, verifier: &V) -> Result<(Sender, V::Info), Error> {
        loop {
            match self.client.handshake(&mut self.client_out, verifier, 0) {
                ClientProgress::Read(_) => self.read()?,
                ClientProgress::Again => {}
                ClientProgress::Write(bytes, _) => self.write(bytes)?,
                ClientProgress::Ack(bytes, _, info) => {
                    self.write(bytes)?;
                    return Ok((self.client.sender(&self.client_out), info));
                }
                ClientProgress::Failed(error) => return Err(error),
            }
        }
    }

    /// Sends a message of the client.
    fn send(&mut self, sender: Sender, message: &[u8]) -> Result<(), Error> {
        match sender.send(&mut self.client_out, message) {
            Ok(_) if self.broken => {
                assert!(self.client_out.sent(Err(ErrorKind::Other)).is_none());
                Err(Error::SendFailed(ErrorKind::Other))
            }
            Ok(bytes) => {
                self.to_server.extend_from_slice(&bytes);
                assert!(self.client_out.sent(Ok(())).is_none());
                Ok(())
            }
            Err(refusal) => Err(refusal.error),
        }
    }

    /// Receives a message of the client.
    fn recv(&mut self) -> Result<Vec<u8>, Error> {
        loop {
            match self.client.recv(&mut self.client_out) {
                Some(result) => return result,
                None => self.read()?,
            }
        }
    }
}

/// A server with a self-signed attestation, its identity and a client.
fn wire() -> (Wire, xdsa::PublicKey) {
    let signer = xdsa::SecretKey::generate();
    let identity = signer.public_key();
    let attestation = self_attestation(&signer);
    (Wire::new(signer, attestation), identity)
}

// Tests that an oversized server hello produces one failure notification. It never
// reaches the writer, which must not emit another one.
#[test]
fn test_oversized_hello_notifies_once() {
    let signer = xdsa::SecretKey::generate();
    let claims = HardwareClaims {
        sub: claims::Subject { sub: "".into() },
        cnf: claims::Confirm::new(signer.public_key()),
        nbf: claims::NotBefore { nbf: 0 },
        iat: claims::IssuedAt { iat: 0 },
        oem: eat::Oemid::new_pen(0),
        hwm: eat::HwModel { hw_model: vec![0; MAX_FRAME_SIZE] },
        hwv: eat::HwVersion::new("".into()),
    };
    let token = cwt::issue(&claims, &signer, CRYPTO_DOMAIN_DEVICE_ATTESTATION).unwrap();
    let mut wire = Wire::new(signer, Attestation::new(token).unwrap());
    wire.to_server.extend_from_slice(&[0, 0]);
    wire.to_server.extend_from_slice(&frame(&HelloKeys::generate().hello()));
    wire.serve();
    assert_eq!(wire.to_client, [0]);
}

// Tests the two real sides against each other. The handshake hands the attestation to
// the client's verifier unchanged and a request gets its response. The server's signal
// for a dropped session then surfaces on the client as a reset, which a fresh handshake
// recovers from.
#[test]
fn test_message_round_trip() {
    let signer = xdsa::SecretKey::generate();
    let identity = signer.public_key();
    let attestation = self_attestation(&signer);
    let presented = attestation.clone();
    let mut wire = Wire::new(signer, attestation);

    // Session 1: handshake, checking the attestation, exchange one message.
    let (sender, attest) = wire.connect(&identity).unwrap();
    assert_eq!(attest.as_bytes(), presented.as_bytes());
    wire.send(sender, &payload(1)).unwrap();
    assert_eq!(wire.recv().unwrap(), payload(1));

    // Inject a frame the server cannot decrypt. It drops the session and signals it. The
    // client's next read reports a reset, and its old sender cannot send again.
    wire.to_server.extend_from_slice(&frame(b"interrupted transfer"));
    let result = wire.recv();
    assert!(matches!(result, Err(Error::SessionReset)), "{:?}", result);
    let result = wire.send(sender, &payload(2));
    assert!(matches!(result, Err(Error::EncryptionFailed(_))), "{:?}", result);

    // Session 2: new handshake on the same wire, exchange one message.
    let (sender, _) = wire.connect(&identity).unwrap();
    wire.send(sender, &payload(2)).unwrap();
    assert_eq!(wire.recv().unwrap(), payload(2));
    assert_eq!(wire.requests, vec![payload(1), payload(2)]);
}

// Tests that an untrusting verifier rejects the session on the client side.
#[test]
fn test_verifier_rejects() {
    let (mut wire, _) = wire();
    assert!(wire.connect(&Untrusting).is_err());
    assert!(wire.requests.is_empty());
}

/// Runs a handshake with the given attestation and trusted roots, returning the client's
/// verification result.
fn client_handshake(
    signer: xdsa::SecretKey,
    attestation: Attestation,
    hardware: &[xdsa::PublicKey],
    emulator: &[xdsa::PublicKey],
    now: u64,
) -> Result<Device, Error> {
    let mut wire = Wire::new(signer, attestation);
    wire.connect(&Roots { hardware, emulator, now }).map(|(_, info)| info)
}

// Tests that the roots verifier accepts hardware and emulator attestations under the
// configured roots and returns the verified identity. Unknown roots and self-signed
// attestations are refused.
#[test]
fn test_roots_verifier() {
    roots_verifier(client_handshake);
}

// Tests that attestation construction accepts hardware and emulator claims and rejects
// junk or CWTs containing other claim types.
#[test]
fn test_attestation_shapes() {
    attestation_shapes();
}

// Tests that the server receives every message of several senders in the order sealed,
// or it would drop the session instead of echoing them.
#[test]
fn client_test_senders() {
    let (mut wire, identity) = wire();
    wire.connect(&identity).unwrap();
    let expected: Vec<Vec<u8>> =
        (0..4).flat_map(|thread| (0..25).map(move |i| payload(thread * 100 + i))).collect();
    for message in &expected {
        let sender = wire.client.sender(&wire.client_out);
        wire.send(sender, message).unwrap();
    }
    let echoes: Vec<Vec<u8>> = (0..100).map(|_| wire.recv().unwrap()).collect();
    assert_eq!(echoes, expected);
}

// Tests that the client receives every message that the server pushes in encryption
// order to decrypt it.
#[test]
fn server_test_senders() {
    let (mut wire, identity) = wire();
    let (sender, _) = wire.connect(&identity).unwrap();
    wire.send(sender, &payload(1)).unwrap();
    assert_eq!(wire.recv().unwrap(), payload(1));
    let expected: Vec<Vec<u8>> =
        (0..4).flat_map(|thread| (0..25).map(move |i| payload(thread * 100 + i))).collect();
    for message in &expected {
        wire.push(message);
    }
    let pushed: Vec<Vec<u8>> = (0..100).map(|_| wire.recv().unwrap()).collect();
    assert_eq!(pushed, expected);

    wire.send(sender, &payload(2)).unwrap();
    wire.serve();
    assert_eq!(wire.requests, vec![payload(1), payload(2)]);
}

// Tests that a sender keeps the session it was made with: a handle obtained before
// handshaking cannot send, and a new handshake refuses the previous session's handle
// while a fresh one sends successfully.
#[test]
fn test_sender_session_bound() {
    let (mut wire, identity) = wire();
    let unbound = wire.client.sender(&wire.client_out);
    assert_eq!(wire.client.session_id(&wire.client_out), 0);
    assert_eq!(unbound.session_id(), 0);
    let (stale, _) = wire.connect(&identity).unwrap();
    assert_eq!(wire.client.session_id(&wire.client_out), 1);
    assert_eq!(stale.session_id(), 1);
    let (sender, _) = wire.connect(&identity).unwrap();
    assert_eq!(unbound.session_id(), 0);

    assert!(matches!(
        wire.send(unbound, &payload(1)),
        Err(Error::EncryptionFailed(_))
    ));
    assert_eq!(stale.session_id(), 1);
    let result = wire.send(stale, &payload(1));
    assert!(
        matches!(&result, Err(Error::EncryptionFailed(msg)) if msg == "session ended"),
        "{:?}",
        result
    );
    assert_eq!(wire.client.session_id(&wire.client_out), 2);
    assert_eq!(sender.session_id(), 2);
    wire.send(sender, &payload(2)).unwrap();
    assert_eq!(wire.recv().unwrap(), payload(2));
}

// Tests that failures end the session in both directions: a receive error refuses sends,
// and a send failure is observed by the next receive even when a complete frame is
// already waiting.
#[test]
fn test_session_lockstep() {
    // The reader ending the wire refuses the sends
    let (mut first, _) = wire();
    let (sender, receiver) = contexts();
    first.client.establish_session(&mut first.client_out, sender, receiver);
    let sender = first.client.sender(&first.client_out);

    let result = first.recv();
    assert!(matches!(result, Err(Error::Terminated)), "{:?}", result);
    let current = first.client.sender(&first.client_out);
    let result = first.send(current, &payload(1));
    assert!(matches!(result, Err(Error::EncryptionFailed(_))), "{:?}", result);
    let result = first.send(sender, &payload(1));
    assert!(matches!(result, Err(Error::EncryptionFailed(_))), "{:?}", result);

    // The writer failing to deliver refuses the reads
    let (mut second, _) = wire();
    let (sender, receiver) = contexts();
    second.client.establish_session(&mut second.client_out, sender, receiver);
    second.broken = true;

    let sender = second.client.sender(&second.client_out);
    let result = second.send(sender, &payload(1));
    assert!(matches!(result, Err(Error::SendFailed(_))), "{:?}", result);
    assert_eq!(second.client.session_id(&second.client_out), 0);
    assert!(matches!(second.recv(), Err(Error::Terminated)));
    assert!(!second.client.has_receiver());

    // A sender failing to deliver refuses the reads once the client gets to them, a frame
    // waiting notwithstanding
    let (mut third, _) = wire();
    let (sender, receiver) = contexts();
    third.client.feed(&[0x02, 0x05, 0x00]);
    third.client.establish_session(&mut third.client_out, sender, receiver);
    third.broken = true;

    let sender = third.client.sender(&third.client_out);
    let result = third.send(sender, &payload(1));
    assert!(matches!(result, Err(Error::SendFailed(_))), "{:?}", result);
    let result = third.recv();
    assert!(
        matches!(&result, Err(Error::EncryptionFailed(msg)) if msg == "no active session"),
        "{:?}",
        result
    );
    assert!(!third.client.has_receiver());
}

// Tests that a server that disconnects tells the client, whose next read reports a reset.
#[test]
fn test_server_disconnects() {
    let (mut wire, identity) = wire();
    let (sender, _) = wire.connect(&identity).unwrap();
    wire.serve();
    let signal = wire.server.disconnect(&mut wire.server_out);
    assert_eq!(signal, [0]);
    assert!(wire.server.sent(&mut wire.server_out, Ok(())).is_none());
    wire.to_client.extend_from_slice(&signal);
    assert!(matches!(wire.recv(), Err(Error::SessionReset)));
    assert!(wire.send(sender, &payload(1)).is_err());
    let (sender, _) = wire.connect(&identity).unwrap();
    wire.send(sender, &payload(2)).unwrap();
    assert_eq!(wire.recv().unwrap(), payload(2));
}
