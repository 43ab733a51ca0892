# wire

An encrypted message transport over a byte stream, between a client (the host) and a
server (the Ark device), written in Verus.

The library under `src/` is free of I/O. Its state machines are fed with the bytes that
arrive, the outcomes of the output they hand out and the current time, and say what to
read, write or deliver next. Every step has a contract, and laws relate the steps.

* `transport/framing.rs`, `transport/cobs.rs`: zero-delimited COBS frames, their recovery
  after cut-off output, and what a reader makes of a stream.
* `transport/handshake.rs`, `transport/envelope.rs`, `transport/keys.rs`,
  `transport/attestation.rs`, `transport/trust.rs`: the three messages of the handshake
  and the device attestation in it.
* `transport/sealing.rs`, `transport/session.rs`: messages of a session.
* `transport/client.rs`, `transport/server.rs`, `transport/outbound.rs`,
  `transport/sender.rs`, `transport/stream.rs`: both ends with deadlines, senders bound to
  their session, and the shutdown of a stream.
* `transport/emitter.rs`: an outgoing half with numbered sessions.
* `transport/delivery.rs`: laws that span both ends, from a message sent to the same
  message received.
* `transport/transcript.rs`, `transport/tape.rs`, `transport/checker.rs`,
  `transport/replay.rs`: transcripts recorded as JSON, and their replay against a client.
* `server.rs`, `side_ark.rs`, `side_host.rs`: both ends without deadlines.
* `scripted/`: scripted peers, with a model that predicts how the side under test reacts
  to every frame.

Cryptography, CBOR, COBS, JSON and base64 come from other crates. What the proofs take from them is
stated at the items marked `external_body`, `assume_specification` and `uninterp`.

`app/` runs the state machines on blocking readers and writers: deadlines on a clock,
threads sharing a writer, and protobuf messages.
