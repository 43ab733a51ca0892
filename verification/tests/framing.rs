//! Framing, sealing and the lifetime of sessions.

use darkbio_crypto::{xdsa, xhpke};
use wire::transport::emitter::{Emitter, Funnel, Side as EmitterSide};
use wire::transport::framing::{FrameReader, FrameWriter};
use wire::transport::handshake::{self, HelloKeys};
use wire::transport::io::ErrorKind;
use wire::transport::outbound::{Outbound, Refusal, Side};
use wire::transport::sealing::OVERHEAD;
use wire::transport::session::Session;
use wire::transport::{cobs, sealing, Error, MAX_FRAME_SIZE, MAX_MESSAGE_SIZE};

/// Encodes a tag as eight big-endian bytes to identify a test message.
fn payload(tag: u64) -> Vec<u8> {
    tag.to_be_bytes().to_vec()
}

/// A pair of contexts standing in for one direction of an established session.
fn contexts() -> (xhpke::Sender, xhpke::Receiver) {
    let secret = xhpke::SecretKey::generate();
    let (sender, encap) = secret.public_key().new_sender(b"test").unwrap();
    let receiver = secret.new_receiver(&encap, b"test").unwrap();
    (sender, receiver)
}

/// Reader with input taken in already.
fn reader(input: &[u8]) -> FrameReader {
    let mut reader = FrameReader::new();
    reader.feed(input);
    reader
}

// Buffered frames stay readable once the stream has nothing more to give.
#[test]
fn test_close_drains_buffered_frames() {
    let mut reader = reader(&[0x02, 1, 0, 0x02, 2, 0]);
    assert_eq!(reader.next_packet().unwrap().unwrap(), Some(vec![1]));
    assert_eq!(reader.next_packet().unwrap().unwrap(), Some(vec![2]));
    assert!(reader.next_packet().is_none());
}

// Tests corner-cases when consuming a packet from the framed transport.
#[test]
fn test_next_packet() {
    struct TestCase {
        input: Vec<u8>,
        expected: Option<Vec<u8>>, // Decoded packet, none if the frame fails to decode
    }
    let tests = [
        // Empty packet, no zeroes encoded
        TestCase { input: [0x01, 0x00].to_vec(), expected: Some(b"".to_vec()) },
        // Simple packet, no zeroes encoded
        TestCase {
            input: [0x04, 0x66, 0x6f, 0x6f, 0x00].to_vec(),
            expected: Some(b"foo".to_vec()),
        },
        // Simple packet, various zeroes
        TestCase {
            input: [0x02, 0x0a, 0x01, 0x01, 0x01, 0x00].to_vec(),
            expected: Some([0x0a, 0x00, 0x00, 0x00].to_vec()),
        },
        // A COBS run can contain a maximum of 255 non-zero bytes, check that the max
        // length chunk decodes correctly.
        TestCase {
            input: std::iter::once(0xff).chain(1..=0xfe).chain(std::iter::once(0x00)).collect(),
            expected: Some((1..=0xfe).collect()),
        },
        // A COBS run can contain a maximum of 255 non-zero bytes, check that
        // exceeding that into multiple chunks succeeds decoding.
        TestCase {
            input: std::iter::once(0xff).chain(1..=0xfe).chain([0x02, 0xff, 0x00]).collect(),
            expected: Some((1..=0xff).collect()),
        },
        // A COBS code promising more bytes than the frame carries fails.
        TestCase { input: [0xff, 0x01, 0x00].to_vec(), expected: None },
    ];

    for (i, tt) in tests.into_iter().enumerate() {
        let result = reader(&tt.input).next_packet().unwrap();
        match tt.expected {
            Some(expected) => {
                let packet = result.unwrap().expect("expected a COBS packet");
                assert_eq!(packet, expected, "test {}", i);
            }
            None => assert!(
                matches!(result, Err(Error::FrameDecodingFailed(_))),
                "test {}: {:?}",
                i,
                result
            ),
        }
    }
}

// Tests corner-cases when injecting a packet into a framed transport.
#[test]
fn test_send_packet() {
    struct TestCase {
        input: Vec<u8>,
        expected: Option<Vec<u8>>, // Bytes on the wire, none if the packet is refused
    }
    let tests = [
        // Empty packet, no zeroes encoded
        TestCase { input: b"".to_vec(), expected: Some([0x01, 0x00].to_vec()) },
        // Simple packet, no zeroes encoded
        TestCase {
            input: b"foo".to_vec(),
            expected: Some([0x04, 0x66, 0x6f, 0x6f, 0x00].to_vec()),
        },
        // Simple packet, various zeroes
        TestCase {
            input: [0x0a, 0x00, 0x00, 0x00].to_vec(),
            expected: Some([0x02, 0x0a, 0x01, 0x01, 0x01, 0x00].to_vec()),
        },
        // A COBS run can contain a maximum of 255 non-zero bytes, check that the max
        // length chunk encodes correctly.
        TestCase {
            input: (1..=0xfe).collect(),
            expected: Some(
                std::iter::once(0xff).chain(1..=0xfe).chain(std::iter::once(0x00)).collect(),
            ),
        },
        // A COBS run can contain a maximum of 255 non-zero bytes, check that
        // exceeding that into multiple chunks succeeds encoding.
        TestCase {
            input: (1..=0xff).collect(),
            expected: Some(
                std::iter::once(0xff).chain(1..=0xfe).chain([0x02, 0xff, 0x00]).collect(),
            ),
        },
        // A packet whose encoding would not fit a frame is refused up front.
        TestCase { input: vec![0x01; MAX_FRAME_SIZE], expected: None },
    ];

    for (i, tt) in tests.into_iter().enumerate() {
        let mut framing = FrameWriter::new();
        let result = framing.send_packet(&tt.input);
        match tt.expected {
            Some(expected) => assert_eq!(result.unwrap(), expected, "test {}", i),
            None => assert!(
                matches!(result, Err(Error::FrameTooLarge(_))),
                "test {}: {:?}",
                i,
                result
            ),
        }
    }
}

// Tests corner-cases when consuming a frame from the raw transport.
#[test]
fn test_next_frame() {
    struct TestCase {
        input: Vec<u8>,
        expected: Vec<u8>,
    }
    let tests = [
        // Empty packet
        TestCase { input: b"\0".to_vec(), expected: b"".to_vec() },
        // Simple packet
        TestCase { input: b"foo\0".to_vec(), expected: b"foo".to_vec() },
        // Max packet size right below overflow should be accepted.
        TestCase {
            input: std::iter::repeat_n(b'a', MAX_FRAME_SIZE).chain(std::iter::once(0)).collect(),
            expected: vec![b'a'; MAX_FRAME_SIZE],
        },
        // Overflown packet should be silently discarded and the next packet read and
        // returned.
        TestCase {
            input: std::iter::repeat_n(b'a', MAX_FRAME_SIZE + 1)
                .chain(b"\0foo\0".iter().copied())
                .collect(),
            expected: b"foo".to_vec(),
        },
        // Multi-frame overflow should not cause issues.
        TestCase {
            input: std::iter::repeat_n(b'a', 2 * MAX_FRAME_SIZE + 15)
                .chain(b"\0foo\0".iter().copied())
                .collect(),
            expected: b"foo".to_vec(),
        },
    ];

    for (i, tt) in tests.into_iter().enumerate() {
        let frame = reader(&tt.input).next_frame_blob().unwrap();
        assert_eq!(frame, tt.expected, "test {}", i);
    }
}

// Tests input ending midway through an oversized frame, which leaves the discard to
// resume on the next call, the frame's tail never served.
#[test]
fn test_next_frame_discard_resumes() {
    // More input resumes the discard of an oversized frame
    let mut framing = reader(&vec![b'a'; MAX_FRAME_SIZE + 1]);
    framing.feed(b"aaa\0foo\0");
    assert_eq!(framing.next_frame_blob().unwrap(), b"foo");

    // A call in between finds nothing, the discard resuming on the next call
    let mut framing = reader(&vec![b'a'; MAX_FRAME_SIZE + 1]);
    assert!(framing.next_frame_blob().is_none());
    framing.feed(b"aaa\0foo\0");
    assert_eq!(framing.next_frame_blob().unwrap(), b"foo");
}

// Tests that an oversized frame is reported once, with the bytes observed when the
// limit was crossed, whatever pieces it arrives in.
#[test]
fn test_next_packet_oversized() {
    for piece in [1000, MAX_FRAME_SIZE, 3 * MAX_FRAME_SIZE] {
        let mut input = vec![b'a'; 2 * MAX_FRAME_SIZE + 15];
        input.extend_from_slice(b"\0\x04foo\0");
        let mut framing = FrameReader::new();
        let mut packets = Vec::new();
        for bytes in input.chunks(piece) {
            framing.feed(bytes);
            while let Some(packet) = framing.next_packet() {
                packets.push(packet);
            }
        }
        assert_eq!(packets.len(), 2);
        assert!(matches!(
            packets[0],
            Err(Error::FrameTooLarge(size)) if size == MAX_FRAME_SIZE + 1
        ));
        assert!(matches!(&packets[1], Ok(Some(packet)) if packet == b"foo"));
    }
}

// Tests corner-cases when injecting a frame into the raw transport.
#[test]
fn test_send_frame() {
    struct TestCase {
        input: Vec<u8>,
        expected: Vec<u8>,
    }
    let tests = [
        // Empty packet
        TestCase { input: b"".to_vec(), expected: b"\0".to_vec() },
        // Simple packet
        TestCase { input: b"foo".to_vec(), expected: b"foo\0".to_vec() },
        // Max packet size right below overflow should be accepted.
        TestCase {
            input: vec![b'a'; MAX_FRAME_SIZE],
            expected: std::iter::repeat_n(b'a', MAX_FRAME_SIZE)
                .chain(std::iter::once(0))
                .collect(),
        },
    ];

    for (i, tt) in tests.into_iter().enumerate() {
        let written = FrameWriter::new().send_frame_blob(&tt.input);
        assert_eq!(written, tt.expected, "test {}", i);
    }
}

// Tests that output without a reported outcome, as of a writer that panicked midway,
// leaves the framer usable. The next send starts with the delimiter that terminates
// whatever was left behind.
#[test]
fn test_send_panic() {
    let mut framing = FrameWriter::new();
    framing.send_packet(&[1, 2, 3]).unwrap();
    assert_eq!(framing.send_packet(&[1, 2, 3]).unwrap(), [0x00, 0x04, 1, 2, 3, 0x00]);

    // A failed frame is terminated too, a complete one is not, and a reset always
    // terminates what precedes it
    framing.complete(false);
    assert_eq!(framing.send_dropped(), [0, 0]);
    framing.complete(true);
    assert_eq!(framing.send_dropped(), [0]);
    framing.complete(false);
    assert_eq!(framing.send_reset(), [0, 0]);
    framing.complete(true);
    assert_eq!(framing.send_packet(&[7]).unwrap(), [2, 7, 0]);
}

// Tests that frames written after a failed one are read back, what was cut off being
// skipped.
#[test]
fn test_resync_reads_back() {
    let mut framing = FrameWriter::new();
    let torn = framing.send_packet(b"torn").unwrap();
    framing.complete(false);
    let whole = framing.send_packet(b"whole").unwrap();
    for size in 0..torn.len() {
        let mut input = torn[..size].to_vec();
        input.extend_from_slice(&whole);
        let mut reader = reader(&input);
        let mut packets = Vec::new();
        while let Some(packet) = reader.next_packet() {
            packets.push(packet);
        }
        let last = packets.pop().unwrap();
        assert!(matches!(last, Ok(Some(packet)) if packet == b"whole"), "cut at {}", size);
        assert_eq!(packets.len(), 1, "cut at {}", size);
    }
}

// Tests that the sealing overhead constant matches what the session AEAD actually
// adds, so a crypto upgrade cannot silently break size bounds.
#[test]
fn sealing_test_seal_overhead() {
    let secret = xhpke::SecretKey::generate();
    let (mut sender, _) = secret.public_key().new_sender(b"test").unwrap();

    for size in [0, 1, 255, 4096] {
        let sealed = sender.seal(&vec![0x42; size], &[]).unwrap();
        assert_eq!(sealed.len(), size + OVERHEAD, "size {}", size);
    }
}

// Tests that the message limit is exact against the frame limit. The sealed and
// framed size of a maximal message fits a frame, the next byte pushing it over.
#[test]
fn test_message_limit() {
    let framed = |size: usize| darkbio_cobs::encode_buffer(size + OVERHEAD);

    assert!(framed(MAX_MESSAGE_SIZE) <= MAX_FRAME_SIZE);
    assert!(framed(MAX_MESSAGE_SIZE + 1) > MAX_FRAME_SIZE);

    assert_eq!(cobs::encode_bound(MAX_MESSAGE_SIZE + OVERHEAD), framed(MAX_MESSAGE_SIZE));
    assert_eq!(cobs::encode_bound(0), 1);
    assert_eq!(cobs::encode_bound(254), 256);
    assert_eq!(cobs::encode_bound(255), 258);
    assert_eq!(cobs::encode_bound(usize::MAX), usize::MAX);
}

// Tests that a message at the limit seals into a frame sized packet and that one over
// the limit is rejected before sealing. The rejection leaves the HPKE sequence
// untouched, so the session stays in sync.
#[test]
fn test_seal_bounds() {
    let (mut sender, mut receiver) = contexts();

    // One byte over the limit must be rejected up front
    let blob = vec![0x42; MAX_MESSAGE_SIZE + 1];
    let result = sealing::seal(&mut sender, &blob).map(|sealed| sealed.len());
    assert!(matches!(result, Err(Error::PacketTooLarge(_))), "{:?}", result);

    // A maximal message must seal, frame within the limit and, the sequence not
    // having advanced, open as the first message on the receiving side
    let blob = vec![0x42; MAX_MESSAGE_SIZE];
    let sealed = sealing::seal(&mut sender, &blob).unwrap();
    assert!(darkbio_cobs::encode_buffer(sealed.len()) <= MAX_FRAME_SIZE);
    assert_eq!(sealing::open(&mut receiver, &sealed).unwrap(), blob);
}

// Tests that a message opens only at its position, and that a failure leaves the
// receiving side where it was.
#[test]
fn test_open_in_sequence() {
    let (mut sender, mut receiver) = contexts();
    let first = sealing::seal(&mut sender, b"first").unwrap();
    let second = sealing::seal(&mut sender, b"second").unwrap();
    assert!(matches!(
        sealing::open(&mut receiver, &second),
        Err(Error::EncryptionFailed(_))
    ));
    assert_eq!(sealing::open(&mut receiver, &first).unwrap(), b"first");
    assert!(sealing::open(&mut receiver, &first).is_err());
    assert_eq!(sealing::open(&mut receiver, &second).unwrap(), b"second");
}

// Tests that the sealing overhead constant matches what a session actually adds.
#[test]
fn session_test_seal_overhead() {
    let secret = xhpke::SecretKey::generate();
    let (mut sender, _) = secret.public_key().new_sender(b"test").unwrap();

    for size in [0, 1, 255, 4096] {
        let sealed = sender.seal(&vec![0x42; size], &[]).unwrap();
        assert_eq!(sealed.len(), size + OVERHEAD, "overhead mismatch");
    }
}

// Tests that an oversized message is rejected before sealing, leaving the HPKE
// sequence untouched so the session stays in sync with its peer.
#[test]
fn test_seal_oversized() {
    let (sender, receiver) = contexts();
    let mut session = Session { sender, receiver };

    // A message that fits the frame limit as plaintext, but not once the sealing and
    // framing overheads are added, must be rejected up front.
    let blob = vec![0x42; MAX_FRAME_SIZE - 32];
    assert!(
        matches!(session.seal(&blob), Err(Error::PacketTooLarge(_))),
        "expected oversized packet rejection"
    );

    // The sequence must not have advanced, so the next sealed message must still open
    // as the first one on the receiving side.
    let blob = b"in sync".to_vec();
    let sealed = session.seal(&blob).unwrap();
    assert_eq!(session.open(&sealed).unwrap(), blob, "message mismatch");
}

/// CBOR header of a byte string of at least 256 bytes.
fn header(len: usize) -> [u8; 3] {
    [0x59, (len >> 8) as u8, len as u8]
}

/// CBOR encoding of an array of byte strings of at least 256 bytes each.
fn array(items: &[&[u8]]) -> Vec<u8> {
    let mut encoded = vec![0x80 + items.len() as u8];
    for item in items {
        encoded.extend_from_slice(&header(item.len()));
        encoded.extend_from_slice(item);
    }
    encoded
}

// Tests the handshake messages against the exact encoding of each for fixed keys and
// contents.
#[test]
fn test_message_vectors() {
    // Signer key derived from a fixed seed
    let signer = |seed: u8| {
        xdsa::SecretKey::from_bytes(&[seed; xdsa::SECRET_KEY_SIZE]).public_key()
    };
    // Encryption key derived from a fixed seed
    let crypto = |seed: u8| {
        xhpke::SecretKey::from_bytes(&[seed; xhpke::SECRET_KEY_SIZE]).public_key()
    };
    // Deterministic bytes standing in for an attestation or an encapsulated key
    let filler = |len: usize| -> Vec<u8> { (0..len).map(|i| i as u8).collect() };

    // HostHello, and the texts that ArkHello and HostAck authenticate
    for (signing, encryption) in [(1, 2), (4, 5), (6, 3)] {
        let encoded = handshake::encode_keys(&signer(signing), &crypto(encryption));
        assert_eq!(
            encoded,
            array(&[&signer(signing).to_bytes(), &crypto(encryption).to_bytes()])
        );
        let (read_signer, read_crypto) = handshake::read_hello(&encoded).unwrap();
        assert_eq!(read_signer.to_bytes(), signer(signing).to_bytes());
        assert_eq!(read_crypto.to_bytes(), crypto(encryption).to_bytes());
    }

    // ArkHello
    let encap = filler(xhpke::ENCAP_KEY_SIZE);
    assert_eq!(
        handshake::encode_ark_hello(filler(300), &crypto(3), encap.clone()),
        array(&[&filler(300), &crypto(3).to_bytes(), &encap])
    );
}

// Tests that a hello is refused unless it is a pair of valid keys.
#[test]
fn test_hello_refusals() {
    let hello = HelloKeys::generate().hello();
    assert!(handshake::read_hello(&hello).is_ok());
    let short = array(&[&hello[4..4 + 1983], &hello[7 + 1984..]]);
    let lone = array(&[&hello[4..4 + 1984]]);
    for packet in [&b"junk"[..], &hello[1..], &short, &lone, &[]] {
        let result = handshake::read_hello(packet).map(|_| ());
        assert!(
            matches!(
                &result,
                Err(Error::HandshakeFailed(reason)) if reason.starts_with("invalid client hello: ")
            ),
            "{:?}",
            result
        );
    }
}

/// Sends through an emitter, the output going out if `written`.
fn emit(emitter: &Emitter, funnel: &mut Funnel, message: &[u8], written: bool) -> Option<Error> {
    match emitter.send_message(funnel, message) {
        Ok(_) => {
            assert!(funnel.sent(written).is_none());
            if written {
                None
            } else {
                Some(Error::SendFailed(ErrorKind::NotConnected))
            }
        }
        Err(refusal) => {
            assert!(refusal.signal.is_none());
            Some(refusal.error)
        }
    }
}

// Tests that sends are refused without a session and after one ended, and that a
// handle stays bound to the session it was made in while a fresh one sends into the
// new session. A failed write ends the session.
#[test]
fn emitter_test_send_refusals() {
    let mut funnel = Funnel::new(EmitterSide::Client);
    let detached = funnel.emitter();
    let result = emit(&detached, &mut funnel, &payload(1), true);
    assert!(
        matches!(&result, Some(Error::EncryptionFailed(msg)) if msg == "no active session"),
        "{:?}",
        result
    );

    // A session established, only a handle made in it sends
    let (sender, _) = contexts();
    assert!(funnel.can_establish());
    funnel.establish_session(sender);
    let first = funnel.emitter();
    assert!(emit(&first, &mut funnel, &payload(2), true).is_none());
    let result = emit(&detached, &mut funnel, &payload(3), true);
    assert!(
        matches!(&result, Some(Error::EncryptionFailed(msg)) if msg == "session ended"),
        "{:?}",
        result
    );

    // The session ended, nothing sends without one
    funnel.drop_session();
    assert!(!funnel.has_session());
    let result = emit(&first, &mut funnel, &payload(4), true);
    assert!(
        matches!(&result, Some(Error::EncryptionFailed(msg)) if msg == "no active session"),
        "{:?}",
        result
    );

    // The next session refuses the handle of the previous one
    let (sender, _) = contexts();
    funnel.establish_session(sender);
    assert!(funnel.has_session());
    let result = emit(&first, &mut funnel, &payload(5), true);
    assert!(
        matches!(&result, Some(Error::EncryptionFailed(msg)) if msg == "session ended"),
        "{:?}",
        result
    );
    let second = funnel.emitter();
    assert!(emit(&second, &mut funnel, &payload(6), true).is_none());

    // Closure is observed by the next write, which ends the session.
    assert_eq!(funnel.session(), second.session_id());
    let result = emit(&second, &mut funnel, &payload(7), false);
    assert!(
        matches!(&result, Some(Error::SendFailed(ErrorKind::NotConnected))),
        "{:?}",
        result
    );
    assert!(!funnel.has_session());
}

// Tests that an oversized message leaves the session of a funnel alone, and that a
// server's funnel signals the session that a failed write ended.
#[test]
fn test_funnel_signals() {
    let mut funnel = Funnel::new(EmitterSide::Server);
    let (sender, mut receiver) = contexts();
    funnel.establish_session(sender);
    let emitter = funnel.emitter();
    let refusal = emitter.send_message(&mut funnel, &vec![0; MAX_MESSAGE_SIZE + 1]).unwrap_err();
    assert!(matches!(
        refusal.error,
        Error::PacketTooLarge(size) if size == MAX_MESSAGE_SIZE + 1
    ));
    assert!(refusal.signal.is_none());
    assert!(funnel.has_session());

    let frame = emitter.send_message(&mut funnel, b"first").unwrap();
    let packet = reader(&frame).next_packet().unwrap().unwrap().unwrap();
    assert_eq!(sealing::open(&mut receiver, &packet).unwrap(), b"first");
    assert_eq!(funnel.sent(false), Some(vec![0, 0]));
    assert!(!funnel.has_session());
    assert!(funnel.sent(true).is_none());
    assert!(EmitterSide::Server.announces_drops() && !EmitterSide::Client.announces_drops());
    assert_eq!(EmitterSide::Client.label(), "host-to-ark");
    assert_eq!(EmitterSide::Server.label(), "ark-to-host");
}

/// Writer of an outgoing half that collects every frame.
struct Collector {
    outbound: Outbound,
    bytes: Vec<u8>,
}

impl Collector {
    fn new(side: Side) -> Self {
        Collector { outbound: Outbound::new(side), bytes: Vec::new() }
    }

    /// Writes output, reporting its outcome.
    fn write(&mut self, output: Vec<u8>) {
        self.bytes.extend_from_slice(&output);
        assert!(self.outbound.sent(Ok(())).is_none());
    }

    /// Sends a message, which goes out or is refused.
    fn send(
        &mut self,
        sender: wire::transport::sender::Sender,
        message: &[u8],
    ) -> Result<(), Error> {
        match sender.send(&mut self.outbound, message) {
            Ok(output) => {
                self.write(output);
                Ok(())
            }
            Err(refusal) => {
                assert!(refusal.signal.is_none());
                Err(refusal.error)
            }
        }
    }
}

// Tests that a delayed end of an old session cannot enter a subsequent handshake or
// session.
#[test]
fn test_old_notification_cannot_cross_handshake() {
    let mut collector = Collector::new(Side::Server);
    let (crypto, _) = contexts();
    let delayed = collector.outbound.bind(crypto);

    // The old session can notify until the writer starts the new handshake.
    let signal = delayed.disconnect(&mut collector.outbound).unwrap();
    collector.write(signal);
    assert_eq!(collector.bytes, [0]);
    collector.outbound.unbind();
    let output = collector.outbound.send_packet(b"hello").unwrap();
    collector.write(output);
    assert!(delayed.disconnect(&mut collector.outbound).is_none());

    let (crypto, mut peer) = contexts();
    let sender = collector.outbound.bind(crypto);
    assert!(delayed.disconnect(&mut collector.outbound).is_none());
    collector.send(sender, &payload(1)).unwrap();

    let mut reader = reader(&collector.bytes);
    assert!(reader.next_packet().unwrap().unwrap().is_none());
    assert_eq!(reader.next_packet().unwrap().unwrap(), Some(b"hello".to_vec()));
    let packet = reader.next_packet().unwrap().unwrap().unwrap();
    assert_eq!(sealing::open(&mut peer, &packet).unwrap(), payload(1));
    assert!(reader.next_packet().is_none());
}

// Tests that ending an old session cannot invalidate its replacement. Ending the
// current one immediately refuses its sender.
#[test]
fn test_owner_drop() {
    let mut collector = Collector::new(Side::Client);
    let (crypto, _) = contexts();
    let stale = collector.outbound.bind(crypto);
    let ended = collector.outbound.session_id();

    let (mut peer, receiver) = contexts();
    let (crypto, _) = contexts();
    let fresh = collector.outbound.bind(crypto);
    collector.outbound.end(ended);
    assert!(matches!(
        collector.send(stale, &payload(1)),
        Err(Error::EncryptionFailed(_))
    ));
    let packet = sealing::seal(&mut peer, &payload(2)).unwrap();
    let mut receiver = receiver;
    let opened = sealing::open(&mut receiver, &packet);
    let current = collector.outbound.session_id();
    assert_eq!(collector.outbound.finish_receive(current, opened).unwrap(), payload(2));
    collector.send(fresh, &payload(3)).unwrap();
    collector.outbound.end(current);
    assert!(matches!(
        collector.send(fresh, &payload(4)),
        Err(Error::EncryptionFailed(_))
    ));
}

// Tests that senders stay bound to their original session after replacement or
// ending. Closing the stream is observed through I/O. Releasing the outgoing half makes
// later sends return Terminated.
#[test]
fn sender_test_send_refusals() {
    let mut collector = Collector::new(Side::Client);
    let (crypto, _) = contexts();
    let first = collector.outbound.bind(crypto);
    collector.send(first, &payload(1)).unwrap();

    let session = collector.outbound.session_id();
    collector.outbound.end(session);
    assert!(matches!(
        collector.send(first, &payload(2)),
        Err(Error::EncryptionFailed(_))
    ));

    let (crypto, _) = contexts();
    let second = collector.outbound.bind(crypto);
    let session = collector.outbound.session_id();
    assert!(matches!(
        collector.send(first, &payload(3)),
        Err(Error::EncryptionFailed(_))
    ));
    assert!(matches!(
        collector.send(first, &payload(4)),
        Err(Error::EncryptionFailed(_))
    ));
    collector.send(second, &payload(5)).unwrap();

    // Closure leaves logical termination to the operation's I/O result.
    collector.outbound.finish_receive(session, Ok(Vec::new())).unwrap();
    second.send(&mut collector.outbound, &payload(6)).unwrap();
    assert!(collector.outbound.sent(Err(ErrorKind::NotConnected)).is_none());
    assert!(collector.outbound.finish_receive(session, Ok(Vec::new())).is_err());
    drop(collector);
    assert!(matches!(
        second.send_through(None, &payload(7)),
        Err(Refusal { error: Error::Terminated, signal: None })
    ));
}

// Tests that sending through an outgoing half that is there is sending.
#[test]
fn test_send_through() {
    let mut collector = Collector::new(Side::Client);
    assert!(collector.outbound.can_bind());
    let (crypto, mut receiver) = contexts();
    let sender = collector.outbound.bind(crypto);
    let output = sender.send_through(Some(&mut collector.outbound), &payload(1)).unwrap();
    collector.write(output);
    let packet = reader(&collector.bytes).next_packet().unwrap().unwrap().unwrap();
    assert_eq!(sealing::open(&mut receiver, &packet).unwrap(), payload(1));
}

// Tests that frames go out in the order they were sealed, every one opening in
// sequence on the receiving side.
#[test]
fn sender_test_send_order() {
    let (sender, mut receiver) = contexts();
    let mut collector = Collector::new(Side::Client);
    let sender = collector.outbound.bind(sender);
    let expected: Vec<Vec<u8>> =
        (0..8).flat_map(|thread| (0..20).map(move |i| payload(thread * 100 + i))).collect();
    for message in &expected {
        collector.send(sender, message).unwrap();
    }

    // Every frame must open in the order written, or the sequence is off
    let mut reader = reader(&collector.bytes);
    let mut messages = Vec::new();
    while let Some(packet) = reader.next_packet() {
        messages.push(sealing::open(&mut receiver, &packet.unwrap().unwrap()).unwrap());
    }
    assert_eq!(messages, expected);
}

// Tests that a failed write ends the session: later sends are refused, and so is a
// message received in the meantime.
#[test]
fn sender_test_send_failure_attribution() {
    let (sender, _) = contexts();
    let mut collector = Collector::new(Side::Client);
    let sender = collector.outbound.bind(sender);
    let session = collector.outbound.session_id();
    sender.send(&mut collector.outbound, &payload(1)).unwrap();
    assert!(collector.outbound.sent(Err(ErrorKind::Other)).is_none());
    assert!(matches!(
        collector.send(sender, &payload(2)),
        Err(Error::EncryptionFailed(_))
    ));
    assert!(collector.outbound.finish_receive(session, Ok(Vec::new())).is_err());
}

// Tests that the frames read from a stream are the pieces of its bytes that end at a
// delimiter and are within the size limit, however the bytes arrive.
#[test]
fn test_frames_are_pieces() {
    let mut bytes = vec![1, 2, 0, 0];
    bytes.extend(vec![7; MAX_FRAME_SIZE + 1]);
    bytes.extend([0, 3, 0]);
    bytes.extend(vec![8; MAX_FRAME_SIZE]);
    bytes.extend([0, 4, 5]);
    let pieces = vec![vec![1, 2], vec![], vec![3], vec![8; MAX_FRAME_SIZE]];
    for size in [5, 64 * 1024, bytes.len()] {
        let mut reader = FrameReader::new();
        let mut frames: Vec<Vec<u8>> = Vec::new();
        let mut rest = bytes.as_slice();
        while !rest.is_empty() {
            let (chunk, left) = rest.split_at(size.max(rest.len() / 64).min(rest.len()));
            reader.feed(chunk);
            while let Some(frame) = reader.next_frame_blob() {
                frames.push(frame);
            }
            rest = left;
        }
        assert_eq!(frames, pieces);
    }
}
