//! Scenarios of a scripted host against the real Ark side.

use wire::scripted::ark::{run, State, Step, Summary};
use wire::side_host::MAX_STALE_FRAMES;

/// Runs a script, which may not diverge from the model.
fn run_logged(steps: &[Step]) -> Summary {
    run(steps).unwrap()
}

// Tests the happy path of the state machine, a handshake followed by
// requests round tripping through the session.
#[test]
fn ark_test_scripted_round_trip() {
    let summary = run_logged(&[
        Step::ResetPair,
        Step::Hello,
        Step::Ack,
        Step::Request(1),
        Step::Request(2),
    ]);
    assert_eq!(
        summary,
        Summary {
            state: State::Established,
            dropped: 0,
            handshakes: 1,
            delivered: 2,
            replies: 2,
        }
    );
}

// Tests that a reset in every state restarts the handshake without the
// Ark signaling anything, the host having asked for it. A session does
// not survive one, a request into it earning a signal.
#[test]
fn ark_test_scripted_reset_restarts() {
    let summary = run_logged(&[
        Step::Reset,
        Step::Reset,
        Step::Reset,
        Step::Hello,
        Step::Ack,
    ]);
    assert_eq!(summary.state, State::Established);
    assert_eq!(summary.handshakes, 1);
    assert_eq!(summary.dropped, 0);

    let summary = run_logged(&[
        Step::Reset,
        Step::Hello,
        Step::Reset,
        Step::Hello,
        Step::Ack,
    ]);
    assert_eq!(summary.state, State::Established);
    assert_eq!(summary.handshakes, 2);
    assert_eq!(summary.dropped, 0);

    let summary = run_logged(&[
        Step::Reset,
        Step::Hello,
        Step::Ack,
        Step::ResetPair,
        Step::Hello,
        Step::Ack,
        Step::Request(1),
    ]);
    assert_eq!(summary.state, State::Established);
    assert_eq!(summary.handshakes, 2);
    assert_eq!(summary.delivered, 1);
    assert_eq!(summary.dropped, 0);

    let summary = run_logged(&[
        Step::Reset,
        Step::Hello,
        Step::Ack,
        Step::Reset,
        Step::Request(1),
    ]);
    assert_eq!(summary.state, State::Idle);
    assert_eq!(summary.delivered, 0);
    assert_eq!(summary.dropped, 1);
}

// Tests that frames arriving outside the state expecting them are junk,
// a handshake only ever starting with a reset.
#[test]
fn ark_test_scripted_frames_outside_state() {
    let summary = run_logged(&[Step::Hello]);
    assert_eq!(summary.state, State::Idle);
    assert_eq!(summary.handshakes, 0);
    assert_eq!(summary.dropped, 1);

    let summary = run_logged(&[Step::Reset, Step::Hello, Step::Hello]);
    assert_eq!(summary.state, State::Idle);
    assert_eq!(summary.dropped, 1);

    let summary = run_logged(&[Step::Reset, Step::Ack]);
    assert_eq!(summary.state, State::Idle);
    assert_eq!(summary.dropped, 1);

    let summary = run_logged(&[Step::Reset, Step::Hello, Step::Request(1)]);
    assert_eq!(summary.state, State::Idle);
    assert_eq!(summary.handshakes, 1);
    assert_eq!(summary.dropped, 1);

    let summary = run_logged(&[Step::Reset, Step::Hello, Step::Ack, Step::Hello]);
    assert_eq!(summary.state, State::Idle);
    assert_eq!(summary.dropped, 1);
}

// Tests that frames failing the handshake's crypto for one specific
// reason each are refused with the dropped session signal. That is a
// hello with an invalid key, acks tampered with, bound or signed wrongly,
// malformed or carrying a bad encapsulation, and a tampered request in a
// session.
#[test]
fn ark_test_scripted_bad_crypto_frames() {
    let summary = run_logged(&[Step::Reset, Step::HelloBadKey]);
    assert_eq!(summary.state, State::Idle);
    assert_eq!(summary.handshakes, 0);
    assert_eq!(summary.dropped, 1);

    for step in [
        Step::AckTampered,
        Step::AckBadAuth,
        Step::AckBadSigner,
        Step::AckBadPayload,
        Step::AckBadEncap,
    ] {
        let summary = run_logged(&[Step::Reset, Step::Hello, step.clone()]);
        assert_eq!(summary.state, State::Idle, "{step:?}");
        assert_eq!(summary.handshakes, 1, "{step:?}");
        assert_eq!(summary.dropped, 1, "{step:?}");

        // Without an ArkHello to answer the frame is plain junk
        let summary = run_logged(&[Step::Reset, step.clone()]);
        assert_eq!(summary.state, State::Idle, "{step:?}");
        assert_eq!(summary.dropped, 1, "{step:?}");
    }

    let summary = run_logged(&[
        Step::Reset,
        Step::Hello,
        Step::Ack,
        Step::RequestTampered,
        Step::Request(1),
    ]);
    assert_eq!(summary.state, State::Idle);
    assert_eq!(summary.delivered, 0);
    assert_eq!(summary.dropped, 2);
}

// Tests that replayed frames are refused, except a replayed hello which is
// a valid hello in its own right and can be acked with its old keys.
#[test]
fn ark_test_scripted_replays() {
    let summary = run_logged(&[Step::Reset, Step::Hello, Step::Ack, Step::AckReplay]);
    assert_eq!(summary.state, State::Idle);
    assert_eq!(summary.dropped, 1);

    let summary = run_logged(&[
        Step::Reset,
        Step::Hello,
        Step::Ack,
        Step::Request(1),
        Step::RequestReplay,
    ]);
    assert_eq!(summary.state, State::Idle);
    assert_eq!(summary.delivered, 1);
    assert_eq!(summary.dropped, 1);

    let summary = run_logged(&[
        Step::Reset,
        Step::Hello,
        Step::Ack,
        Step::Reset,
        Step::Hello,
        Step::AckReplay,
    ]);
    assert_eq!(summary.state, State::Idle);
    assert_eq!(summary.handshakes, 2);
    assert_eq!(summary.dropped, 1);

    let summary = run_logged(&[
        Step::Reset,
        Step::Hello,
        Step::Ack,
        Step::Reset,
        Step::HelloReplay,
        Step::Ack,
        Step::Request(3),
    ]);
    assert_eq!(summary.state, State::Established);
    assert_eq!(summary.handshakes, 2);
    assert_eq!(summary.delivered, 1);
    assert_eq!(summary.dropped, 0);
}

// Tests that a packet decrypting into something that is not a message
// surfaces as an error but leaves the session usable.
#[test]
fn ark_test_scripted_garbage_keeps_session() {
    let summary = run_logged(&[
        Step::Reset,
        Step::Hello,
        Step::Ack,
        Step::Garbage,
        Step::Request(1),
    ]);
    assert_eq!(summary.state, State::Established);
    assert_eq!(summary.delivered, 1);
    assert_eq!(summary.dropped, 0);
}

// Tests that junk in every state drops the Ark back to idle with the host
// told about it through an empty frame, and that a fresh handshake
// recovers from it.
#[test]
fn ark_test_scripted_junk_signals_dropped() {
    let junk = || Step::Junk(vec![0xde, 0xad, 0xbe, 0xef]);

    let summary = run_logged(&[junk()]);
    assert_eq!(summary.state, State::Idle);
    assert_eq!(summary.dropped, 1);

    let summary = run_logged(&[Step::Reset, junk()]);
    assert_eq!(summary.state, State::Idle);
    assert_eq!(summary.dropped, 1);

    let summary = run_logged(&[Step::Reset, Step::Hello, junk()]);
    assert_eq!(summary.state, State::Idle);
    assert_eq!(summary.handshakes, 1);
    assert_eq!(summary.dropped, 1);

    let summary = run_logged(&[Step::Reset, Step::Hello, Step::Ack, junk()]);
    assert_eq!(summary.state, State::Idle);
    assert_eq!(summary.dropped, 1);

    // Undecodable COBS is junk like any other, as is an empty packet in
    // a frame that is not empty
    let summary = run_logged(&[
        Step::Reset,
        Step::Hello,
        Step::Ack,
        Step::Junk(vec![0xff, 0x01]),
    ]);
    assert_eq!(summary.state, State::Idle);
    assert_eq!(summary.dropped, 1);

    let summary = run_logged(&[Step::Reset, Step::Hello, Step::Ack, Step::Junk(vec![])]);
    assert_eq!(summary.state, State::Idle);
    assert_eq!(summary.dropped, 1);

    // A fresh handshake recovers, whether the junk hit a session or a
    // handshake in progress
    let summary = run_logged(&[
        Step::Reset,
        Step::Hello,
        Step::Ack,
        junk(),
        Step::Reset,
        Step::Hello,
        Step::Ack,
        Step::Request(1),
    ]);
    assert_eq!(summary.state, State::Established);
    assert_eq!(summary.delivered, 1);
    assert_eq!(summary.dropped, 1);

    let summary = run_logged(&[
        Step::Reset,
        junk(),
        Step::Reset,
        Step::Hello,
        Step::Ack,
        Step::Request(1),
    ]);
    assert_eq!(summary.state, State::Established);
    assert_eq!(summary.delivered, 1);
    assert_eq!(summary.dropped, 1);
}

// Tests that every request into a session the Ark no longer has earns a
// signal of its own. A host pipelining a stale bound's worth of them
// queues up as many in front of its next handshake.
#[test]
fn ark_test_scripted_requests_into_dead_session() {
    let mut steps = vec![
        Step::Reset,
        Step::Hello,
        Step::Ack,
        Step::Junk(vec![0xde, 0xad]),
    ];
    steps.extend((0..MAX_STALE_FRAMES as u8).map(Step::Request));
    let summary = run_logged(&steps);
    assert_eq!(summary.state, State::Idle);
    assert_eq!(summary.delivered, 0);
    assert_eq!(summary.dropped, MAX_STALE_FRAMES + 1);
}

// Tests that truncated copies of valid frames are junk in every state.
#[test]
fn ark_test_scripted_truncated_frames() {
    for cut in [0u8, 1, 7, 255] {
        let summary = run_logged(&[Step::Reset, Step::Hello, Step::Truncated(cut)]);
        assert_eq!(summary.state, State::Idle, "cut {cut}");
        assert_eq!(summary.dropped, 1, "cut {cut}");

        let summary = run_logged(&[
            Step::Reset,
            Step::Hello,
            Step::Ack,
            Step::Request(1),
            Step::Truncated(cut),
        ]);
        assert_eq!(summary.state, State::Idle, "cut {cut}");
        assert_eq!(summary.dropped, 1, "cut {cut}");
    }
}

// Tests how an unterminated frame merges with what follows it. Bytes
// swallow the next frame into junk, while a lone delimiter completes a
// partial hello into a valid one. Only the second zero of a reset pair
// gets through as a reset.
#[test]
fn ark_test_scripted_partial_frames() {
    let summary = run_logged(&[Step::Partial, Step::Reset, Step::Hello]);
    assert_eq!(summary.state, State::Idle);
    assert_eq!(summary.handshakes, 0);
    assert_eq!(summary.dropped, 2);

    let summary = run_logged(&[Step::Reset, Step::Partial, Step::Reset, Step::Ack]);
    assert_eq!(summary.state, State::Established);
    assert_eq!(summary.handshakes, 1);
    assert_eq!(summary.dropped, 0);

    let summary = run_logged(&[
        Step::Reset,
        Step::Partial,
        Step::ResetPair,
        Step::Hello,
        Step::Ack,
    ]);
    assert_eq!(summary.state, State::Established);
    assert_eq!(summary.handshakes, 2);
    assert_eq!(summary.dropped, 0);

    let summary = run_logged(&[Step::Reset, Step::Partial, Step::Partial, Step::Reset]);
    assert_eq!(summary.state, State::Idle);
    assert_eq!(summary.dropped, 1);

    let summary = run_logged(&[Step::Partial, Step::ResetPair, Step::Hello, Step::Ack]);
    assert_eq!(summary.state, State::Established);
    assert_eq!(summary.dropped, 1);

    let summary = run_logged(&[
        Step::Reset,
        Step::Hello,
        Step::Ack,
        Step::Partial,
        Step::Request(1),
    ]);
    assert_eq!(summary.state, State::Idle);
    assert_eq!(summary.delivered, 0);
    assert_eq!(summary.dropped, 1);
}

// Tests that a read failing aborts a handshake in progress without a
// signal to the host, but leaves an established session intact.
#[test]
fn ark_test_scripted_yield() {
    let summary = run_logged(&[Step::Yield]);
    assert_eq!(summary.state, State::Idle);
    assert_eq!(summary.replies, 0);

    let summary = run_logged(&[Step::Reset, Step::Yield, Step::Hello]);
    assert_eq!(summary.state, State::Idle);
    assert_eq!(summary.handshakes, 0);
    assert_eq!(summary.dropped, 1);

    let summary = run_logged(&[Step::Reset, Step::Hello, Step::Yield, Step::Ack]);
    assert_eq!(summary.state, State::Idle);
    assert_eq!(summary.handshakes, 1);
    assert_eq!(summary.dropped, 1);

    let summary = run_logged(&[
        Step::Reset,
        Step::Hello,
        Step::Ack,
        Step::Yield,
        Step::Request(1),
    ]);
    assert_eq!(summary.state, State::Established);
    assert_eq!(summary.delivered, 1);
    assert_eq!(summary.replies, 2);
}

// Tests a transport failing under the Ark's writes. A failed reply drops
// the session, the signals it would send are lost and a handshake whose
// ArkHello cannot go out is given up. A healed transport recovers.
#[test]
fn ark_test_scripted_broken_transport() {
    let summary = run_logged(&[
        Step::Reset,
        Step::Hello,
        Step::Ack,
        Step::Request(1),
        Step::Break,
        Step::Request(2),
        Step::Request(3),
        Step::Heal,
        Step::Reset,
        Step::Hello,
        Step::Ack,
        Step::Request(4),
    ]);
    assert_eq!(summary.state, State::Established);
    assert_eq!(summary.delivered, 3);
    assert_eq!(summary.replies, 2);
    assert_eq!(summary.dropped, 0);

    let summary = run_logged(&[
        Step::Reset,
        Step::Break,
        Step::Hello,
        Step::Heal,
        Step::Ack,
        Step::Reset,
        Step::Hello,
        Step::Ack,
    ]);
    assert_eq!(summary.state, State::Established);
    assert_eq!(summary.handshakes, 1);
    assert_eq!(summary.dropped, 1);

    let summary = run_logged(&[
        Step::Reset,
        Step::Hello,
        Step::Ack,
        Step::Break,
        Step::Yield,
        Step::Heal,
        Step::Request(1),
    ]);
    assert_eq!(summary.state, State::Idle);
    assert_eq!(summary.delivered, 0);
    assert_eq!(summary.replies, 0);
    assert_eq!(summary.dropped, 1);
}

// Tests that frames arriving in pieces, down to a byte per read, are
// reassembled and served like whole ones. A partial hello completes
// across reads the same way.
#[test]
fn ark_test_scripted_chunked_reads() {
    for chunk in [1u8, 7, 254, 255] {
        let summary = run_logged(&[
            Step::Chunk(chunk),
            Step::Reset,
            Step::Hello,
            Step::Ack,
            Step::Request(1),
            Step::Junk(vec![1; 300]),
            Step::Reset,
            Step::Hello,
            Step::Ack,
            Step::Request(2),
        ]);
        assert_eq!(summary.state, State::Established, "chunk {chunk}");
        assert_eq!(summary.delivered, 2, "chunk {chunk}");
        assert_eq!(summary.dropped, 1, "chunk {chunk}");

        let summary = run_logged(&[
            Step::Chunk(chunk),
            Step::Reset,
            Step::Partial,
            Step::Reset,
            Step::Ack,
        ]);
        assert_eq!(summary.state, State::Established, "chunk {chunk}");
        assert_eq!(summary.handshakes, 1, "chunk {chunk}");
    }
}

// Tests that steps with nothing to replay or truncate yet are no-ops.
#[test]
fn ark_test_scripted_noops() {
    let summary = run_logged(&[
        Step::HelloReplay,
        Step::AckReplay,
        Step::RequestReplay,
        Step::Truncated(3),
        Step::Reset,
        Step::Hello,
        Step::Ack,
    ]);
    assert_eq!(summary.state, State::Established);
    assert_eq!(summary.dropped, 0);
}

// Tests that scripts of resets run through, however the bytes are cut up and whether
// or not the Ark's writes work.
#[test]
fn test_scripted_resets_only() {
    assert_eq!(run(&[]), Ok(Summary::default()));
    assert_eq!(
        run_logged(&[
            Step::Chunk(1),
            Step::ResetPair,
            Step::Reset,
            Step::Break,
            Step::Yield,
            Step::Heal,
            Step::ResetPair,
        ]),
        Summary::default()
    );
}

// Tests scripts that never come to a hello that the Ark answers, whatever the keys.
// Every frame outside of a handshake earns a signal, on a working transport.
#[test]
fn test_scripted_never_answered() {
    let signaled = |dropped: usize| Summary { dropped, ..Summary::default() };
    assert_eq!(run_logged(&[Step::Hello]), signaled(1));
    assert_eq!(run_logged(&[Step::HelloBadKey]), signaled(1));
    assert_eq!(run_logged(&[Step::Junk(vec![0, 7])]), signaled(1));
    assert_eq!(run_logged(&[Step::Request(1)]), signaled(1));
    assert_eq!(run_logged(&[Step::Ack]), signaled(1));
    assert_eq!(run_logged(&[Step::Reset, Step::Junk(vec![255])]), signaled(1));
    assert_eq!(run_logged(&[Step::Reset, Step::Garbage, Step::AckTampered]), signaled(2));
    assert_eq!(run_logged(&[Step::Hello, Step::Reset, Step::Truncated(9)]), signaled(2));

    // An unterminated hello does nothing until it is completed
    assert_eq!(run_logged(&[Step::Partial]), signaled(0));
    assert_eq!(run_logged(&[Step::Partial, Step::Partial, Step::ResetPair]), signaled(1));
    assert_eq!(run_logged(&[Step::Partial, Step::Hello, Step::Yield]), signaled(1));

    // On a broken transport not even a valid hello is answered, and the first output
    // behind it is recovered by a delimiter
    assert_eq!(run_logged(&[Step::Reset, Step::Break, Step::Hello]), signaled(0));
    assert_eq!(
        run_logged(&[Step::Reset, Step::Break, Step::Hello, Step::Heal, Step::Request(1)]),
        signaled(1)
    );
}

// Tests that the size of the pieces that frames arrive in changes no summary.
#[test]
fn test_scripted_piece_sizes() {
    let steps = [
        Step::ResetPair,
        Step::Hello,
        Step::Ack,
        Step::Request(4),
        Step::Junk(vec![1, 2, 3]),
        Step::Partial,
        Step::Reset,
        Step::Break,
        Step::Request(5),
        Step::Heal,
        Step::Hello,
    ];
    let whole = run_logged(&steps);
    for size in [1, 7, 255] {
        let mut pieced = vec![Step::Chunk(size)];
        pieced.extend(steps.iter().cloned());
        assert_eq!(run_logged(&pieced), whole);
    }
}
