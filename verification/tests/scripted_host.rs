//! Scenarios of a scripted Ark against the real host side.

use wire::scripted::host::{run, Step, Summary};
use wire::scripted::MAX_STEPS;
use wire::side_host::MAX_STALE_FRAMES;

/// Runs a script, which may not diverge from the model.
fn run_logged(steps: &[Step]) -> Summary {
    run(steps).unwrap()
}

// Tests the happy path of the state machine, a handshake followed by
// requests and replies through the session, one at a time and pipelined.
#[test]
fn host_test_scripted_round_trip() {
    let summary = run_logged(&[
        Step::Handshake,
        Step::Hello,
        Step::Send(1),
        Step::Reply(1),
        Step::Recv,
        Step::Send(2),
        Step::Send(3),
        Step::Reply(2),
        Step::Reply(3),
        Step::Recv,
        Step::Recv,
    ]);
    assert_eq!(
        summary,
        Summary {
            established: true,
            handshakes: 1,
            messages: 3,
            resets: 0,
            failures: 0,
        }
    );
}

// Tests that flawed hellos fail the handshake once found, each with its
// own error, leaving the host without a session. That is a hello tampered
// with, bound or signed wrongly, malformed, carrying a bad key or
// encapsulation, or an attestation of the wrong shape.
#[test]
fn host_test_scripted_flawed_hellos() {
    for flaw in [
        Step::HelloTampered,
        Step::HelloBadAuth,
        Step::HelloBadSigner,
        Step::HelloBadPayload,
        Step::HelloBadKey,
        Step::HelloBadEncap,
        Step::HelloBadAttest,
    ] {
        let summary = run_logged(&[Step::Handshake, flaw.clone(), Step::Send(1)]);
        assert!(!summary.established, "{flaw:?}");
        assert_eq!(summary.failures, 1, "{flaw:?}");

        // Without a hello to answer the frame is plain junk
        let summary = run_logged(&[flaw.clone(), Step::Recv]);
        assert!(!summary.established, "{flaw:?}");
        assert_eq!(summary.failures, 1, "{flaw:?}");
    }
}

// Tests that frames not meant for the handshake in progress are skipped
// as stale, up to the bound.
#[test]
fn host_test_scripted_stale_skipping() {
    let summary = run_logged(&[
        Step::Dropped,
        Step::Junk(vec![1, 2, 3]),
        Step::Handshake,
        Step::HelloStale,
        Step::Dropped,
        Step::Junk(vec![]),
        Step::Hello,
    ]);
    assert!(summary.established);
    assert_eq!(summary.failures, 0);

    // A reply left unread from the previous session is stale too
    let summary = run_logged(&[
        Step::Handshake,
        Step::Hello,
        Step::Send(1),
        Step::Reply(1),
        Step::Handshake,
        Step::Hello,
        Step::Send(2),
        Step::Reply(2),
        Step::Recv,
    ]);
    assert_eq!(summary.handshakes, 2);
    assert_eq!(summary.messages, 1);
    assert_eq!(summary.failures, 0);

    // An old ArkHello left over from a completed handshake is stale too
    let summary = run_logged(&[
        Step::Handshake,
        Step::Hello,
        Step::Hello,
        Step::Handshake,
        Step::Hello,
    ]);
    assert_eq!(summary.handshakes, 2);
    assert!(summary.established);

    let mut steps = vec![Step::Handshake];
    steps.extend(std::iter::repeat_n(Step::Dropped, MAX_STALE_FRAMES));
    steps.push(Step::Hello);
    let summary = run_logged(&steps);
    assert!(summary.established);

    let mut steps = vec![Step::Handshake];
    steps.extend(std::iter::repeat_n(Step::Dropped, MAX_STALE_FRAMES + 1));
    steps.push(Step::Hello);
    let summary = run_logged(&steps);
    assert!(!summary.established);
    assert_eq!(summary.failures, 1);
}

// Tests that a frame failing to decode, a read failing and the transport
// ending all abort a handshake with their own errors.
#[test]
fn host_test_scripted_handshake_interrupted() {
    let summary = run_logged(&[Step::Handshake, Step::Undecodable, Step::Send(1)]);
    assert!(!summary.established);
    assert_eq!(summary.failures, 1);

    let summary = run_logged(&[Step::Handshake, Step::Yield, Step::Send(1)]);
    assert!(!summary.established);
    assert_eq!(summary.failures, 1);

    let summary = run_logged(&[Step::Handshake]);
    assert!(!summary.established);
    assert_eq!(summary.failures, 1);
}

// Tests that a packet decrypting into something that is not a message
// surfaces as an error but leaves the session usable.
#[test]
fn host_test_scripted_garbage_keeps_session() {
    let summary = run_logged(&[
        Step::Handshake,
        Step::Hello,
        Step::Garbage,
        Step::Recv,
        Step::Reply(2),
        Step::Recv,
    ]);
    assert!(summary.established);
    assert_eq!(summary.messages, 1);
    assert_eq!(summary.failures, 1);
}

// Tests that packets the session cannot open drop it. That is a replayed
// reply, one from an earlier session, a tampered one, junk, a leftover
// ArkHello and an undecodable frame.
#[test]
fn host_test_scripted_undecryptable_drops_session() {
    let summary = run_logged(&[
        Step::Handshake,
        Step::Hello,
        Step::Reply(1),
        Step::ReplyReplay,
        Step::Recv,
        Step::Recv,
        Step::Send(1),
    ]);
    assert!(!summary.established);
    assert_eq!(summary.messages, 1);
    assert_eq!(summary.failures, 1);

    let summary = run_logged(&[
        Step::Handshake,
        Step::Hello,
        Step::Reply(1),
        Step::Recv,
        Step::Handshake,
        Step::Hello,
        Step::ReplyReplay,
        Step::Recv,
    ]);
    assert!(!summary.established);
    assert_eq!(summary.handshakes, 2);
    assert_eq!(summary.messages, 1);
    assert_eq!(summary.failures, 1);

    let summary = run_logged(&[
        Step::Handshake,
        Step::Hello,
        Step::ReplyTampered,
        Step::Recv,
    ]);
    assert!(!summary.established);

    let summary = run_logged(&[
        Step::Handshake,
        Step::Hello,
        Step::Junk(vec![7]),
        Step::Recv,
    ]);
    assert!(!summary.established);

    let summary = run_logged(&[Step::Handshake, Step::Hello, Step::Hello, Step::Recv]);
    assert!(!summary.established);

    let summary = run_logged(&[Step::Handshake, Step::Hello, Step::Undecodable, Step::Recv]);
    assert!(!summary.established);
}

// Tests that the Ark signaling a dropped session surfaces as a reset and
// drops the host's session, sends failing until a new handshake. A
// request sent before the signal is read still goes out.
#[test]
fn host_test_scripted_dropped_signal() {
    let summary = run_logged(&[
        Step::Handshake,
        Step::Hello,
        Step::Dropped,
        Step::Recv,
        Step::Send(1),
        Step::Handshake,
        Step::Hello,
        Step::Send(2),
    ]);
    assert!(summary.established);
    assert_eq!(summary.handshakes, 2);
    assert_eq!(summary.resets, 1);
    assert_eq!(summary.failures, 0);

    let summary = run_logged(&[
        Step::Handshake,
        Step::Hello,
        Step::Dropped,
        Step::Send(1),
        Step::Recv,
        Step::Send(2),
    ]);
    assert!(!summary.established);
    assert_eq!(summary.resets, 1);
    assert_eq!(summary.failures, 0);

    // Without a session the signal still surfaces as a reset, so a request
    // the Ark answered with a signal of its own shows up as a second reset
    let summary = run_logged(&[Step::Dropped, Step::Recv]);
    assert_eq!(summary.resets, 1);

    let summary = run_logged(&[
        Step::Handshake,
        Step::Hello,
        Step::Dropped,
        Step::Dropped,
        Step::Recv,
        Step::Recv,
    ]);
    assert!(!summary.established);
    assert_eq!(summary.resets, 2);
}

// Tests that reads without a session consume a frame and fail with the
// error matching the frame, the session check coming after the read.
#[test]
fn host_test_scripted_recv_without_session() {
    let summary = run_logged(&[Step::Junk(vec![1]), Step::Recv]);
    assert_eq!(summary.failures, 1);

    let summary = run_logged(&[Step::Undecodable, Step::Recv]);
    assert_eq!(summary.failures, 1);

    let summary = run_logged(&[Step::Recv]);
    assert_eq!(summary.failures, 1);

    let summary = run_logged(&[Step::Send(1)]);
    assert_eq!(summary.failures, 0);
}

// Tests that a read failing in a session drops the session, the host not
// knowing what it missed. So does the transport ending.
#[test]
fn host_test_scripted_read_failure_drops_session() {
    let summary = run_logged(&[Step::Handshake, Step::Hello, Step::Recv, Step::Send(1)]);
    assert!(!summary.established);
    assert_eq!(summary.failures, 1);

    let summary = run_logged(&[Step::Handshake, Step::Hello, Step::Recv]);
    assert!(!summary.established);
    assert_eq!(summary.failures, 1);
}

// Tests a transport failing under the host's writes. A send fails and
// drops the session, a handshake fails at its reset or at its ack, and a
// healed transport recovers.
#[test]
fn host_test_scripted_broken_transport() {
    let summary = run_logged(&[
        Step::Handshake,
        Step::Hello,
        Step::Break,
        Step::Send(1),
        Step::Send(2),
        Step::Handshake,
        Step::Heal,
        Step::Handshake,
        Step::Hello,
        Step::Send(3),
    ]);
    assert!(summary.established);
    assert_eq!(summary.handshakes, 2);
    assert_eq!(summary.failures, 1);

    let summary = run_logged(&[
        Step::Handshake,
        Step::Break,
        Step::Hello,
        Step::Heal,
        Step::Handshake,
        Step::Hello,
    ]);
    assert!(summary.established);
    assert_eq!(summary.handshakes, 1);
    assert_eq!(summary.failures, 1);
}

// Tests that frames arriving in pieces, down to a byte per read, are
// reassembled and read like whole ones.
#[test]
fn host_test_scripted_chunked_reads() {
    for chunk in [1u8, 7, 254, 255] {
        let summary = run_logged(&[
            Step::Chunk(chunk),
            Step::Handshake,
            Step::Hello,
            Step::Send(1),
            Step::Reply(1),
            Step::Recv,
            Step::Junk(vec![1; 300]),
            Step::Recv,
            Step::Handshake,
            Step::Hello,
        ]);
        assert!(summary.established, "chunk {chunk}");
        assert_eq!(summary.messages, 1, "chunk {chunk}");
        assert_eq!(summary.handshakes, 2, "chunk {chunk}");
    }
}

// Tests that Ark frames and yields outside a read queue up or vanish, and
// that replies before a session are junk.
#[test]
fn host_test_scripted_noops() {
    let summary = run_logged(&[
        Step::Yield,
        Step::ReplyReplay,
        Step::Reply(1),
        Step::Hello,
        Step::Handshake,
        Step::Hello,
    ]);
    assert!(summary.established);
    assert_eq!(summary.handshakes, 1);
}

// Tests that scripts without calls run through, the frames they put in front of the
// host never being read.
#[test]
fn test_scripted_without_calls() {
    assert_eq!(run(&[]), Ok(Summary::default()));
    assert_eq!(
        run_logged(&[
            Step::Hello,
            Step::HelloBadAttest,
            Step::Reply(1),
            Step::ReplyReplay,
            Step::ReplyTampered,
            Step::Garbage,
            Step::Dropped,
            Step::Junk(vec![0, 1, 2]),
            Step::Undecodable,
            Step::Chunk(3),
            Step::Break,
            Step::Yield,
            Step::Heal,
        ]),
        Summary::default()
    );
}

// Tests scripts in which the host opens no packet, whatever the keys: what they come to
// is decided by the transport and by empty and undecodable frames.
#[test]
fn test_scripted_nothing_opened() {
    let failed = |failures: usize| Summary { failures, ..Summary::default() };
    let reset = Summary { resets: 1, ..Summary::default() };
    assert_eq!(run_logged(&[Step::Send(1)]), failed(0));
    assert_eq!(run_logged(&[Step::Recv]), failed(1));
    assert_eq!(run_logged(&[Step::Dropped, Step::Recv]), reset);
    assert_eq!(run_logged(&[Step::Junk(vec![1, 2]), Step::Recv]), failed(1));
    assert_eq!(run_logged(&[Step::Break, Step::Handshake]), failed(1));
    assert_eq!(run_logged(&[Step::Handshake]), failed(1));
    assert_eq!(run_logged(&[Step::Handshake, Step::Yield, Step::Send(1)]), failed(1));
    assert_eq!(run_logged(&[Step::Handshake, Step::Undecodable, Step::Send(1)]), failed(1));
    assert_eq!(
        run_logged(&[Step::Handshake, Step::Chunk(1), Step::Dropped, Step::Undecodable]),
        failed(1)
    );

    // The handshake gives up on the frame past the bound, the hello coming too late
    let mut steps = vec![Step::Handshake];
    steps.extend((0..MAX_STALE_FRAMES + 1).map(|_| Step::Dropped));
    steps.push(Step::Hello);
    assert_eq!(run_logged(&steps), failed(1));
}

// Tests that the size of the pieces that frames arrive in changes no summary.
#[test]
fn test_scripted_host_piece_sizes() {
    let steps = [
        Step::Handshake,
        Step::Junk(vec![1, 2, 3]),
        Step::Hello,
        Step::Send(4),
        Step::Reply(4),
        Step::Garbage,
        Step::Recv,
        Step::Recv,
        Step::ReplyTampered,
        Step::Recv,
        Step::Break,
        Step::Handshake,
        Step::Heal,
        Step::Handshake,
        Step::HelloBadAttest,
        Step::Handshake,
        Step::Hello,
    ];
    let whole = run_logged(&steps);
    assert_eq!(
        whole,
        Summary {
            established: true,
            handshakes: 2,
            messages: 1,
            resets: 0,
            failures: 4,
        }
    );
    for size in [1, 7, 255] {
        let mut pieced = vec![Step::Chunk(size)];
        pieced.extend(steps.iter().cloned());
        assert_eq!(run_logged(&pieced), whole);
    }
}
