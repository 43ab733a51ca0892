//! Playback of transcripts and the checker of a client's output.

use darkbio_crypto::{xdsa, xhpke};
use wire::scripted::{frame, self_attestation};
use wire::transport::checker::{Mismatch, Peer};
use wire::transport::handshake::{self, HelloKeys};
use wire::transport::io::ErrorKind;
use wire::transport::replay::{self, Divergence, Vector, TIMESTAMP};
use wire::transport::tape::{Event, Input, Output, ReadError, Reader, Tape, Writer, POLL};
use wire::transport::{sealing, Error};

/// Writes all of a buffer.
fn write_all(writer: &mut Writer, tape: &mut Tape, bytes: &[u8]) {
    let mut rest = bytes;
    while !rest.is_empty() {
        match writer.write(tape, rest) {
            Output::Accepted(size) => rest = &rest[size..],
            output => panic!("write came to {:?}", output),
        }
    }
}

// Tests a failed prefix whose recorded length covers a shorter replay frame.
// The write reports that whole frame as accepted; flush must surface the deferred
// error without consuming the following transcript event.
#[test]
fn test_full_prefix_failure_surfaces_on_flush() {
    for error in [ErrorKind::BrokenPipe, ErrorKind::TimedOut] {
        let prefix = vec![1, 2, 3, 4];
        let failure = match error {
            ErrorKind::TimedOut => Event::WriteTimedOut { bytes: prefix },
            _ => Event::Write { bytes: prefix, failed: true },
        };
        let mut tape =
            Tape::new(vec![failure, Event::Write { bytes: vec![0], failed: false }]);
        let mut writer = Writer { pending_error: None };
        writer.set_write_deadline();
        assert_eq!(writer.write(&mut tape, &[1, 2, 0]), Output::Accepted(3));
        assert_eq!(writer.flush(&mut tape), Output::Failed(error));

        writer.set_write_deadline();
        write_all(&mut writer, &mut tape, &[0]);
        assert_eq!(writer.flush(&mut tape), Output::Accepted(0));
        assert!(tape.done());
    }
}

// Tests that starting new output discards a failure left by an abandoned write.
#[test]
fn test_new_output_discards_deferred_failure() {
    let mut tape = Tape::new(vec![
        Event::Write { bytes: vec![1], failed: true },
        Event::FlushTimedOut,
        Event::FlushFailed,
    ]);
    let mut writer = Writer::new();
    assert_eq!(writer.write(&mut tape, &[1, 2, 0]), Output::Accepted(1));
    assert_eq!(writer.pending_error, Some(ErrorKind::BrokenPipe));
    writer.set_write_deadline();
    assert_eq!(writer.flush(&mut tape), Output::Failed(ErrorKind::TimedOut));
    assert_eq!(writer.flush(&mut tape), Output::Failed(ErrorKind::BrokenPipe));
    assert_eq!(writer.flush(&mut tape), Output::Accepted(0));
    assert_eq!(writer.write(&mut tape, &[1]), Output::Diverged);
}

// Tests that a failure none of whose bytes are accepted surfaces at once, and that
// a lone recorded delimiter accepts only the delimiter of a combined write.
#[test]
fn test_write_accepts_recorded_amount() {
    let mut tape = Tape::new(vec![
        Event::WriteTimedOut { bytes: Vec::new() },
        Event::Write { bytes: vec![0], failed: false },
        Event::Write { bytes: vec![9, 9], failed: false },
        Event::Recv,
    ]);
    let mut writer = Writer::new();
    assert_eq!(writer.write(&mut tape, &[7]), Output::Failed(ErrorKind::TimedOut));
    assert_eq!(writer.write(&mut tape, &[0, 7, 0]), Output::Accepted(1));
    assert_eq!(writer.write(&mut tape, &[7, 7, 0]), Output::Accepted(3));
    assert_eq!(writer.write(&mut tape, &[7]), Output::Diverged);
    let writes = tape.take_writes();
    let actual: Vec<Vec<u8>> = writes.iter().map(|written| written.actual.clone()).collect();
    assert_eq!(actual, vec![vec![], vec![0], vec![7, 7, 0]]);
    let failed: Vec<bool> = writes.iter().map(|written| written.failed).collect();
    assert_eq!(failed, vec![true, false, false]);
    assert_eq!(writes[2].recorded, vec![9, 9]);
}

/// Bytes that a read gives.
fn bytes(input: Input) -> Vec<u8> {
    match input {
        Input::Bytes(bytes) => bytes,
        input => panic!("read came to {:?}", input),
    }
}

// Tests that reads follow the transcript: in chunks, past input of no bytes, and
// with every recorded failure.
#[test]
fn test_reads_follow_transcript() {
    let mut tape = Tape::new(vec![
        Event::Read { bytes: Vec::new(), chunk: 7 },
        Event::Read { bytes: vec![1, 2, 3, 4, 5], chunk: 2 },
        Event::Read { bytes: vec![6, 7, 8], chunk: 0 },
        Event::ReadFailed { error: ReadError::Failed },
        Event::ReadFailed { error: ReadError::Interrupted },
        Event::ReadFailed { error: ReadError::TimedOut },
        Event::ReadFailed { error: ReadError::Eof },
        Event::Recv,
    ]);
    let mut reader = Reader { deadline: 0 };
    reader.set_read_deadline(10);
    assert_eq!(bytes(reader.read(&mut tape, 9, 0, 0)), vec![1, 2]);
    assert_eq!(bytes(reader.read(&mut tape, 1, 0, 0)), vec![3]);
    assert_eq!(bytes(reader.read(&mut tape, 9, 0, 0)), vec![4, 5]);
    assert_eq!(bytes(reader.read(&mut tape, 2, 0, 0)), vec![6, 7]);
    assert_eq!(bytes(reader.read(&mut tape, 2, 0, 0)), vec![8]);
    for kind in [ErrorKind::WouldBlock, ErrorKind::Interrupted, ErrorKind::TimedOut] {
        assert!(
            matches!(reader.read(&mut tape, 2, 0, 0), Input::Failed(failed) if failed == kind)
        );
    }
    assert_eq!(bytes(reader.read(&mut tape, 2, 0, 0)), Vec::<u8>::new());
    assert!(matches!(reader.read(&mut tape, 2, 0, 0), Input::Diverged));
    assert!(matches!(reader.read(&mut tape, 2, 0, 0), Input::Diverged));
}

// Tests that a read waits for recorded output, up to its deadline or a short poll,
// and for a recorded failure only once output failed.
#[test]
fn test_read_waits_for_output() {
    let mut tape = Tape::new(vec![
        Event::Write { bytes: vec![1], failed: true },
        Event::Refused { kind: "SendFailed".to_string() },
    ]);
    let mut reader = Reader { deadline: 5 * POLL };
    assert!(matches!(reader.read(&mut tape, 1, 7, 7), Input::Wait(limit) if limit == 7 + POLL));
    assert!(matches!(
        reader.read(&mut tape, 1, 7, 8 + POLL),
        Input::Failed(ErrorKind::TimedOut)
    ));
    reader.set_read_deadline(9);
    assert!(matches!(reader.read(&mut tape, 1, 7, 9), Input::Wait(9)));
    assert!(matches!(reader.read(&mut tape, 1, 7, 10), Input::Failed(ErrorKind::TimedOut)));

    let mut writer = Writer::new();
    assert_eq!(writer.write(&mut tape, &[1]), Output::Accepted(1));
    assert!(matches!(reader.read(&mut tape, 1, 7, 8), Input::Wait(9)));
    tape.begin_call();
    assert!(matches!(reader.read(&mut tape, 1, 7, 8), Input::Diverged));
}

/// Builds a replay peer, a sealed HostAck and its client sending context.
/// The peer has not processed the acknowledgement yet.
fn checker_session() -> (Peer, Vec<u8>, xhpke::Sender) {
    let identity = xdsa::SecretKey::from_bytes(&[1; xdsa::SECRET_KEY_SIZE]).public_key();
    let crypto = xhpke::SecretKey::from_bytes(&[2; xhpke::SECRET_KEY_SIZE]);
    let signer = xdsa::SecretKey::from_bytes(&[3; xdsa::SECRET_KEY_SIZE]);
    let (sender, ack) =
        handshake::acknowledge(&signer, &identity, &crypto.public_key(), Some(TIMESTAMP)).unwrap();
    let peer = Peer {
        identity,
        xhpke: vec![crypto],
        signer: Some(signer.public_key()),
        receiver: None,
    };
    (peer, frame(&ack), sender)
}

// Tests that a recorded successful frame cannot replay as unfinished output.
// Includes a combined recovery prefix and a reset missing its second delimiter.
#[test]
fn test_checker_rejects_incomplete_successful_output() {
    for (recorded, actual, mismatch) in [
        (vec![2, 42, 0], vec![2, 42], Mismatch::Unfinished),
        (vec![0, 2, 42, 0], vec![0, 2, 42], Mismatch::Unfinished),
        (vec![0, 0], vec![0], Mismatch::Signal),
    ] {
        let (mut peer, _, _) = checker_session();
        assert_eq!(
            peer.check(&recorded, &actual, false, None),
            Err(mismatch),
            "accepted incomplete successful output: {:?} for {:?}",
            actual,
            recorded,
        );
    }
}

// Tests that a complete encrypted frame cannot omit a recorded recovery zero,
// even if the write ultimately failed. Without that zero the peer would merge
// the packet with the preceding unfinished frame instead of decrypting it.
#[test]
fn test_checker_requires_recovery_delimiter() {
    for failed in [false, true] {
        let (mut peer, ack, _) = checker_session();
        let mut recorded = vec![0];
        recorded.extend_from_slice(&ack);
        assert_eq!(
            peer.check(&recorded, &ack, failed, None),
            Err(Mismatch::Recovery),
            "accepted output without its recovery delimiter"
        );
    }
}

// Tests that exact HostAck bytes still install the replay's receiving context.
// The next request uses different valid ciphertext in the recording, forcing
// the checker to open the actual request with that installed context.
#[test]
fn test_checker_exact_ack_installs_receiver() {
    let (mut peer, ack, mut sender) = checker_session();
    let (_, _, mut recorded_sender) = checker_session();
    assert_eq!(peer.check(&ack, &ack, false, None), Ok(()));

    let message = b"first request".to_vec();
    let actual = frame(&sender.seal(&message, &[]).unwrap());
    let recorded = frame(&recorded_sender.seal(&message, &[]).unwrap());
    assert_ne!(actual, recorded);
    assert_eq!(peer.check(&recorded, &actual, false, Some(&message)), Ok(()));
}

// Tests that exact request bytes still advance the replay's receiving context.
// The following request differs from its recording and must decrypt at the next
// sequence number. The different ACK ensures this test isolates request handling.
#[test]
fn test_checker_exact_request_advances_receiver() {
    let (mut peer, ack, mut sender) = checker_session();
    let (_, recorded_ack, mut recorded_sender) = checker_session();
    assert_ne!(ack, recorded_ack);
    assert_eq!(peer.check(&recorded_ack, &ack, false, None), Ok(()));

    let first = b"first request".to_vec();
    let actual = frame(&sender.seal(&first, &[]).unwrap());
    assert_eq!(peer.check(&actual, &actual, false, Some(&first)), Ok(()));
    recorded_sender.seal(&first, &[]).unwrap();

    let second = b"second request".to_vec();
    let actual = frame(&sender.seal(&second, &[]).unwrap());
    let recorded = frame(&recorded_sender.seal(&second, &[]).unwrap());
    assert_ne!(actual, recorded);
    assert_eq!(peer.check(&recorded, &actual, false, Some(&second)), Ok(()));
}

// Tests the partial writes that remain valid: a failed write may stop mid-frame,
// while a successful write may match an explicitly recorded unfinished prefix.
#[test]
fn test_checker_accepts_recorded_partial_output() {
    let (mut peer, _, _) = checker_session();
    assert_eq!(peer.check(&vec![2, 42, 0], &vec![2, 42], true, None), Ok(()));
    assert_eq!(peer.check(&vec![2, 42], &vec![2, 42], false, None), Ok(()));
    assert_eq!(peer.check(&vec![0], &vec![0], false, None), Ok(()));
}

// Tests that an ACK cannot use another saved server key, even with a valid
// signature from the current client. Randomized encryption preserves its recipient.
#[test]
fn test_checker_requires_recorded_ack_recipient() {
    let (mut peer, recorded_ack, _) = checker_session();
    let stale_crypto = xhpke::SecretKey::from_bytes(&[9; xhpke::SECRET_KEY_SIZE]);
    let signer = xdsa::SecretKey::from_bytes(&[3; xdsa::SECRET_KEY_SIZE]);
    let (_, wrong_ack) = handshake::acknowledge(
        &signer,
        &peer.identity,
        &stale_crypto.public_key(),
        Some(TIMESTAMP),
    )
    .unwrap();
    peer.xhpke.push(stale_crypto);

    for failed in [false, true] {
        assert_eq!(
            peer.check(&recorded_ack, &frame(&wrong_ack), failed, None),
            Err(Mismatch::Recipient),
            "accepted an ack for a different recorded server key"
        );
    }
}

// Tests a shorter replay ACK fully accepted before a deferred write failure,
// when the recording contains only an unfinished prefix of its longer frame.
#[test]
fn test_checker_accepts_complete_ack_after_recorded_prefix_failure() {
    let (mut peer, ack, _) = checker_session();
    // The unfinished recording must be longer than the actual frame for the
    // writer to accept that frame in full before reporting its deferred error.
    let mut prefix = ack[..ack.len() - 1].to_vec();
    prefix.extend_from_slice(&[1, 1]);
    assert_eq!(peer.check(&prefix, &ack, true, None), Ok(()));
    assert!(peer.receiver.is_some());
}

// Tests the remaining ways in which output differs from the recorded one.
#[test]
fn test_checker_mismatches() {
    let (mut peer, ack, mut sender) = checker_session();
    // A zero within the frame, and a frame that is not COBS
    assert_eq!(
        peer.check(&vec![2, 0, 2, 0], &vec![2, 0, 2, 0], false, None),
        Err(Mismatch::Undecodable)
    );
    assert_eq!(peer.check(&vec![9, 0], &vec![9, 0], false, None), Err(Mismatch::Undecodable));
    assert_eq!(peer.check(&vec![9, 0], &ack, false, None), Err(Mismatch::Undecodable));
    // A hello under other keys
    let hello = frame(&HelloKeys::generate().hello());
    let other = frame(&HelloKeys::generate().hello());
    assert_eq!(peer.check(&hello, &hello, false, None), Ok(()));
    assert_eq!(peer.check(&hello, &other, false, None), Err(Mismatch::Hello));
    // Requests ahead of an ack, out of sequence and with another message
    let message = b"request".to_vec();
    let first = frame(&sender.seal(&message, &[]).unwrap());
    let second = frame(&sender.seal(&message, &[]).unwrap());
    assert_eq!(peer.check(&first, &first, false, Some(&message)), Err(Mismatch::NoAck));
    assert_eq!(peer.check(&ack, &ack, false, None), Ok(()));
    assert_eq!(peer.check(&second, &second, false, Some(&message)), Err(Mismatch::Request));
    assert_eq!(
        peer.check(&first, &first, false, Some(&b"other".to_vec())),
        Err(Mismatch::Message)
    );
    assert_eq!(peer.check(&second, &second, false, Some(&message)), Ok(()));
    // Acks before any handshake, of another client, and to no key of the server's
    peer.signer = None;
    assert_eq!(peer.check(&ack, &ack, false, None), Err(Mismatch::NoHandshake));
    peer.signer = Some(xdsa::SecretKey::generate().public_key());
    assert_eq!(peer.check(&ack, &ack, false, None), Err(Mismatch::Ack));
    peer.xhpke.clear();
    assert_eq!(peer.check(&ack, &ack, false, None), Err(Mismatch::UnknownRecipient));
}

// Tests that the recorded keys are loaded, and refused if they are none.
#[test]
fn test_peer_loads_keys() {
    let identity = xdsa::SecretKey::from_bytes(&[1; xdsa::SECRET_KEY_SIZE]).public_key();
    let encoded = identity.to_bytes().to_vec();
    let seeds = vec![vec![2; xhpke::SECRET_KEY_SIZE], vec![3; xhpke::SECRET_KEY_SIZE]];
    let peer = Peer::new(&encoded, &seeds).unwrap();
    assert_eq!(peer.identity.to_bytes(), identity.to_bytes());
    assert_eq!(
        peer.xhpke[1].public_key().to_bytes(),
        xhpke::SecretKey::from_bytes(&[3; xhpke::SECRET_KEY_SIZE]).public_key().to_bytes()
    );
    assert!(peer.signer.is_none() && peer.receiver.is_none());
    assert!(Peer::new(&encoded[1..].to_vec(), &seeds).is_none());
    assert!(Peer::new(&encoded, &vec![vec![2; 31]]).is_none());
}

/// A transcript of a handshake, a request and a reply. The recorded ack and
/// request are those of another run under the same keys.
fn recording() -> Vector {
    let identity = xdsa::SecretKey::from_bytes(&[1; xdsa::SECRET_KEY_SIZE]);
    let server = xhpke::SecretKey::from_bytes(&[2; xhpke::SECRET_KEY_SIZE]);
    let hello = HelloKeys {
        signer: xdsa::SecretKey::from_bytes(&[3; xdsa::SECRET_KEY_SIZE]),
        crypto: xhpke::SecretKey::from_bytes(&[4; xhpke::SECRET_KEY_SIZE]),
    };
    let attestation = self_attestation(&identity);
    let (mut sender, encap) =
        hello.crypto.public_key().new_sender(b"wire-v1:ark-to-host").unwrap();
    let payload = handshake::encode_ark_hello(
        attestation.as_bytes().to_vec(),
        &server.public_key(),
        encap.to_vec(),
    );
    let answer = handshake::seal_message(
        payload,
        hello.hello(),
        &identity,
        &hello.crypto.public_key(),
        Some(TIMESTAMP),
    )
    .unwrap();
    let (mut recorded, ack) = handshake::acknowledge(
        &hello.signer,
        &identity.public_key(),
        &server.public_key(),
        Some(TIMESTAMP),
    )
    .unwrap();
    let reply = sealing::seal(&mut sender, b"pong").unwrap();
    let request = sealing::seal(&mut recorded, b"ping").unwrap();
    Vector {
        scenario: "request and reply".to_string(),
        script: Vec::new(),
        write_failures: true,
        identity: identity.public_key().to_bytes().to_vec(),
        attestation: attestation.as_bytes().to_vec(),
        server_keys: vec![vec![2; xhpke::SECRET_KEY_SIZE]],
        trace: vec![
            Event::Session { established: false },
            Event::Send { message: b"early".to_vec() },
            Event::Refused { kind: "EncryptionFailed".to_string() },
            Event::Handshake { xdsa: vec![3; 64], xhpke: vec![4; 32] },
            Event::Write { bytes: vec![0, 0], failed: false },
            Event::Write { bytes: frame(&hello.hello()), failed: false },
            Event::Read { bytes: vec![0, 5, 5, 0], chunk: 1 },
            Event::ReadFailed { error: ReadError::Interrupted },
            Event::Read { bytes: frame(&answer), chunk: 100 },
            Event::Write { bytes: frame(&ack), failed: false },
            Event::Returned { reply: None },
            Event::Session { established: true },
            Event::Retain,
            Event::Send { message: b"ping".to_vec() },
            Event::Write { bytes: frame(&request), failed: false },
            Event::Returned { reply: None },
            Event::Recv,
            Event::Read { bytes: frame(&reply), chunk: 0 },
            Event::Returned { reply: Some(b"pong".to_vec()) },
            Event::SendRetained { message: b"torn".to_vec() },
            Event::Write { bytes: vec![7, 7, 7], failed: true },
            Event::Refused { kind: "SendFailed".to_string() },
            Event::Session { established: false },
        ],
    }
}

// Tests that a recorded scenario replays against a fresh client.
#[test]
fn test_recording_replays() {
    assert_eq!(replay::run(recording()), Ok(()));
}

// Tests that a replay stops at whatever the transcript has otherwise.
#[test]
fn test_recording_diverges() {
    let mut vector = recording();
    vector.identity.pop();
    assert_eq!(replay::run(vector), Err(Divergence::Key));

    let mut vector = recording();
    vector.trace[3] = Event::Handshake { xdsa: vec![3; 63], xhpke: vec![4; 32] };
    assert_eq!(replay::run(vector), Err(Divergence::Key));

    let mut vector = recording();
    vector.attestation.pop();
    assert_eq!(replay::run(vector), Err(Divergence::Attestation));

    let mut vector = recording();
    vector.trace[11] = Event::Session { established: false };
    assert_eq!(replay::run(vector), Err(Divergence::Session));

    let mut vector = recording();
    vector.trace[2] = Event::Refused { kind: "Terminated".to_string() };
    assert_eq!(replay::run(vector), Err(Divergence::Outcome));

    let mut vector = recording();
    vector.trace[18] = Event::Returned { reply: Some(b"gong".to_vec()) };
    assert_eq!(replay::run(vector), Err(Divergence::Outcome));

    let mut vector = recording();
    vector.trace[4] = Event::Write { bytes: vec![0, 0, 0], failed: false };
    assert_eq!(replay::run(vector), Err(Divergence::Output(Mismatch::Signal)));

    let mut vector = recording();
    vector.trace.remove(4);
    assert_eq!(replay::run(vector), Err(Divergence::Order));

    let mut vector = recording();
    vector.trace.truncate(1);
    vector.trace.push(Event::FlushFailed);
    assert_eq!(replay::run(vector), Err(Divergence::Call));

    let mut vector = recording();
    vector.trace.truncate(2);
    assert_eq!(replay::run(vector), Err(Divergence::Ended));

    let mut vector = recording();
    vector.trace.truncate(9);
    assert_eq!(replay::run(vector), Err(Divergence::Order));
}

// Tests that errors go by the names of their variants.
#[test]
fn test_error_kinds() {
    assert_eq!(Error::PacketTooLarge(1).kind(), "PacketTooLarge");
    assert_eq!(Error::FrameTooLarge(1).kind(), "FrameTooLarge");
    assert_eq!(Error::SendFailed(ErrorKind::Other).kind(), "SendFailed");
    assert_eq!(Error::RecvFailed(ErrorKind::Other).kind(), "RecvFailed");
    assert_eq!(Error::Terminated.kind(), "Terminated");
    assert_eq!(Error::SessionReset.kind(), "SessionReset");
    assert_eq!(Error::InvalidAttestation.kind(), "InvalidAttestation");
    assert_eq!(Error::HandshakeFailed(String::new()).kind(), "HandshakeFailed");
    assert_eq!(Error::EncryptionFailed(String::new()).kind(), "EncryptionFailed");
}

// Tests that a transcript of calls without a session replays, up to the kind of the
// recorded errors.
#[test]
fn test_sessionless_transcript() {
    let trace = |kind: &str| {
        vec![
            Event::Session { established: false },
            Event::Recv,
            Event::Refused { kind: "EncryptionFailed".to_string() },
            Event::Retain,
            Event::SendRetained { message: Vec::new() },
            Event::Refused { kind: kind.to_string() },
        ]
    };
    let mut vector = recording();
    vector.trace = trace("EncryptionFailed");
    assert_eq!(replay::run(vector), Ok(()));

    let mut vector = recording();
    vector.trace = trace("SessionReset");
    assert_eq!(replay::run(vector), Err(Divergence::Outcome));

    let mut vector = recording();
    vector.trace = Vec::new();
    assert_eq!(replay::run(vector), Ok(()));
}

// Tests that a transcript replays whose handshake is decided by the transport: the
// reset does not go out, or the input ends behind the hello.
#[test]
fn test_refused_handshake_transcripts() {
    let shake = || Event::Handshake { xdsa: vec![3; 64], xhpke: vec![4; 32] };
    let hello = HelloKeys {
        signer: xdsa::SecretKey::from_bytes(&[3; xdsa::SECRET_KEY_SIZE]),
        crypto: xhpke::SecretKey::from_bytes(&[4; xhpke::SECRET_KEY_SIZE]),
    };
    let refused = |kind: &str| Event::Refused { kind: kind.to_string() };
    let mute = |kind: &str| {
        vec![
            shake(),
            Event::Write { bytes: vec![0, 0], failed: true },
            refused(kind),
        ]
    };
    let mut vector = recording();
    vector.trace = mute("SendFailed");
    assert_eq!(replay::run(vector), Ok(()));
    let mut vector = recording();
    vector.trace = mute("Terminated");
    assert_eq!(replay::run(vector), Err(Divergence::Outcome));

    let deaf = |error: ReadError, kind: &str| {
        vec![
            shake(),
            Event::Write { bytes: vec![0, 0], failed: false },
            Event::Write { bytes: frame(&hello.hello()), failed: false },
            Event::ReadFailed { error },
            refused(kind),
        ]
    };
    let mut vector = recording();
    vector.trace = deaf(ReadError::Eof, "Terminated");
    assert_eq!(replay::run(vector), Ok(()));
    let mut vector = recording();
    vector.trace = deaf(ReadError::Failed, "RecvFailed");
    assert_eq!(replay::run(vector), Ok(()));
    let mut vector = recording();
    vector.trace = deaf(ReadError::Eof, "RecvFailed");
    assert_eq!(replay::run(vector), Err(Divergence::Outcome));
}
