//! Scripted mock peers for the transport. Each mock drives one real peer through a
//! sequence of frames and failures. A state machine predicts the peer's reaction,
//! and a mismatch panics.

use darkbio_crypto::{cbor, cose, xdsa, xhpke};
use std::cell::RefCell;
use std::collections::VecDeque;
use std::rc::Rc;
use wire::scripted::ark::{AckFlaw, Pending};
use wire::scripted::{cloud_attestation, frame, self_attestation, unframe, MAX_STEPS};
use wire::transport::attestation::Attestation;
use wire::transport::client::{Client, Progress};
use wire::transport::handshake::{self, Answerer, HelloKeys};
use wire::transport::io::ErrorKind;
use wire::transport::outbound::{Outbound, Refusal, Sender, Side};
use wire::transport::server::{Event, Server, Step as ServerMove};
use wire::transport::stream::{
    frame_deadline, ReadHalf, ReadStep, Shutdown, WriteHalf, WriteStep, DEFAULT_WRITE_TIMEOUT,
};
use wire::transport::{sealing, Error, MAX_FRAME_SIZE, MAX_MESSAGE_SIZE};

/// Fixed signing timestamp of the mocks.
const TIMESTAMP: i64 = 0;

/// Message number of the probes that the drivers send.
const PROBE_ID: u64 = u64::MAX;

/// Encodes a tag as eight big-endian bytes to identify a test message.
fn payload(tag: u64) -> Vec<u8> {
    tag.to_be_bytes().to_vec()
}

/// Message one byte past the send limit.
fn oversized_message() -> Vec<u8> {
    vec![0x42; MAX_MESSAGE_SIZE + 1]
}

/// Point where a scripted output failure occurs. A recovery delimiter belongs to
/// the same write as its frame. Only `Start` applies to a lone delimiter; `Middle`
/// needs at least three bytes, while `Delimiter` and `Flush` also apply to a
/// two-delimiter signal.
#[derive(Clone, Copy, Debug, PartialEq, Eq)]
enum CutPoint {
    /// Fails before accepting any bytes.
    Start,
    /// Accepts `1 + min(n, len - 3)` bytes of a write at least three bytes long.
    Middle(u16),
    /// Accepts everything except the final delimiter, then fails.
    Delimiter,
    /// Accepts all bytes, then fails during flush.
    Flush,
}

/// Captured bytes and injected faults.
#[derive(Default)]
struct OutputState {
    bytes: Vec<u8>,
    broken: bool,
    cut: Option<CutPoint>,
    timeout: bool,
    write_error: Option<ErrorKind>, // Deferred until the call after accepted bytes
    flush_error: Option<ErrorKind>,
}

/// Captures output for the mock peer to consume. Scripts can inject partial writes,
/// timeouts and persistent write failures.
#[derive(Clone, Default)]
struct Outbox {
    state: Rc<RefCell<OutputState>>,
}

impl Outbox {
    /// Removes and returns all delimited frames, without their delimiters. Keeps any
    /// unfinished tail until a later write supplies its delimiter.
    fn take_frames(&self) -> Vec<Vec<u8>> {
        let mut state = self.state.borrow_mut();
        let mut frames: Vec<Vec<u8>> = state.bytes.split(|&b| b == 0).map(<[u8]>::to_vec).collect();
        let tail = frames.pop().expect("split yields at least one piece");
        state.bytes = tail;
        frames
    }

    /// Reports whether captured output contains an unfinished frame.
    fn has_tail(&self) -> bool {
        !self.state.borrow().bytes.is_empty()
    }

    /// Enables or clears a persistent write failure.
    fn set_broken(&self, broken: bool) {
        self.state.borrow_mut().broken = broken;
    }

    /// Arms a failure for the next write to which this cut point applies. The cut
    /// takes priority over a persistent write failure.
    fn set_cut(&self, point: CutPoint) {
        let mut state = self.state.borrow_mut();
        state.cut = Some(point);
        state.timeout = false;
    }

    /// Arms a timeout at the selected cut point.
    fn set_timeout(&self, point: CutPoint) {
        let mut state = self.state.borrow_mut();
        state.cut = Some(point);
        state.timeout = true;
    }

    /// Chooses how many bytes to accept and which error to report afterwards.
    fn accept(state: &mut OutputState, buf: &[u8]) -> (usize, Option<ErrorKind>) {
        if let Some(point) = state.cut {
            let accepted = match point {
                CutPoint::Start => Some(0),
                CutPoint::Middle(n) if buf.len() > 2 => Some(1 + (n as usize).min(buf.len() - 3)),
                CutPoint::Delimiter if buf.len() > 1 => Some(buf.len() - 1),
                CutPoint::Flush if buf.len() > 1 => Some(buf.len()),
                _ => None,
            };
            if let Some(accepted) = accepted {
                state.cut = None;
                let error = match std::mem::take(&mut state.timeout) {
                    true => ErrorKind::TimedOut,
                    false => ErrorKind::BrokenPipe,
                };
                if point == CutPoint::Flush {
                    state.flush_error = Some(error);
                    return (accepted, None);
                }
                return (accepted, Some(error));
            }
        }
        if state.broken {
            return (0, Some(ErrorKind::BrokenPipe));
        }
        (buf.len(), None)
    }

    /// Starts a new frame, discarding an error that the previous output left
    /// unobserved.
    fn set_write_deadline(&self) {
        let mut state = self.state.borrow_mut();
        state.write_error = None;
        state.flush_error = None;
    }

    /// Accepts bytes according to the script. Accepted bytes and the failure after
    /// them are reported separately.
    fn write(&self, buf: &[u8]) -> Result<usize, ErrorKind> {
        let mut state = self.state.borrow_mut();
        if let Some(error) = state.write_error.take() {
            return Err(error);
        }
        let (accepted, error) = Outbox::accept(&mut state, buf);
        state.bytes.extend_from_slice(&buf[..accepted]);
        match error {
            Some(error) if accepted > 0 => {
                state.write_error = Some(error);
                Ok(accepted)
            }
            Some(error) => Err(error),
            None => Ok(accepted),
        }
    }

    fn flush(&self) -> Result<(), ErrorKind> {
        let mut state = self.state.borrow_mut();
        if let Some(error) = state.write_error.take() {
            return Err(error);
        }
        match state.flush_error.take() {
            Some(error) => Err(error),
            None => Ok(()),
        }
    }
}

/// Writes and flushes one output through the write half, and reports the outcome.
/// The scripts decide about timeouts, so the clock stands still.
fn write_output(shutdown: &mut Shutdown, outbox: &Outbox, bytes: &[u8]) -> Result<(), ErrorKind> {
    let deadline = frame_deadline(0, DEFAULT_WRITE_TIMEOUT, None);
    let mut half = WriteHalf::new(bytes.len());
    loop {
        match half.write(shutdown, 0, deadline) {
            WriteStep::SetDeadline => {
                outbox.set_write_deadline();
                half.returned(shutdown, Ok(0));
            }
            WriteStep::Write(from) => half.returned(shutdown, outbox.write(&bytes[from..])),
            WriteStep::Flush => half.returned(shutdown, outbox.flush().map(|_| 0)),
            WriteStep::Done(_) => return half.outcome(0, deadline).unwrap(),
        }
    }
}

/// Reads through the read half. Timeouts and interruptions are retried.
fn read_input<F: FnMut(&mut [u8]) -> Result<usize, ErrorKind>>(
    shutdown: &mut Shutdown,
    buf: &mut [u8],
    mut read: F,
) -> Result<usize, ErrorKind> {
    let mut half = ReadHalf::new();
    loop {
        match half.read(shutdown, 0, None) {
            ReadStep::SetDeadline => half.returned(shutdown, Ok(0)),
            ReadStep::Read => half.returned(shutdown, read(buf)),
            ReadStep::Done(result) => return result,
        }
    }
}

/// Sends through a handle, or is refused without one. A failure's signal goes out
/// behind it.
fn send_through(
    sender: Option<&Sender>,
    outbound: &mut Outbound,
    shutdown: &mut Shutdown,
    outbox: &Outbox,
    message: &[u8],
) -> Result<(), Error> {
    let sender = match sender {
        Some(sender) => sender,
        None => return Err(Error::EncryptionFailed("no active session".into())),
    };
    let bytes = match sender.send(outbound, message) {
        Ok(bytes) => bytes,
        Err(Refusal { error, signal }) => {
            assert!(signal.is_none());
            return Err(error);
        }
    };
    let outcome = write_output(shutdown, outbox, &bytes);
    if let Some(signal) = outbound.sent(outcome) {
        let signaled = write_output(shutdown, outbox, &signal);
        assert!(outbound.sent(signaled).is_none());
    }
    outcome.map_err(Error::SendFailed)
}

/// One scripted input, I/O fault, or driver action. A step that needs a missing
/// session or ArkHello sends junk instead, so arbitrary step sequences are valid.
#[derive(Clone, Debug, PartialEq, Eq)]
enum ClientStep {
    // Handshake input.
    /// A lone zero, one empty frame.
    Reset,
    /// Two zeros, as the client sends them.
    ResetPair,
    /// A valid HostHello with fresh ephemeral keys.
    Hello,
    /// The last HostHello sent, repeated. Nothing if none was sent yet.
    HelloReplay,
    /// A HostHello carrying an encryption key that fails validation.
    HelloBadKey,
    /// A valid HostAck for the ArkHello last received. Junk if there is none.
    Ack,
    /// The last HostAck sent, repeated. Nothing if none was sent yet.
    AckReplay,
    /// A HostAck for the ArkHello last received with a flipped ciphertext
    /// byte. Junk if there is none.
    AckTampered,
    /// A HostAck bound to the wrong server key. Junk without a pending ArkHello.
    AckBadAuth,
    /// A HostAck signed by a key absent from the HostHello. Junk without a
    /// pending ArkHello.
    AckBadSigner,
    /// A HostAck for the ArkHello last received whose sealed payload is not
    /// an ack at all. Junk if there is none.
    AckBadPayload,
    /// A HostAck for the ArkHello last received with an encapsulated key of
    /// the wrong size. Junk if there is none.
    AckBadEncap,

    // Session input.
    /// A sealed request tagged by the byte. Junk without a session.
    Request(u8),
    /// The last sealed request sent, repeated. Nothing if none was sent yet.
    RequestReplay,
    /// A sealed request with a flipped ciphertext byte. Junk without a
    /// session.
    RequestTampered,
    /// A sealed packet that is not a protobuf message. Junk without a session.
    Garbage,

    // Malformed and partial frames.
    /// Arbitrary frame bytes, with zeros replaced and an empty input padded.
    /// The model expects rejection during framing, key validation, or decryption.
    Junk(Vec<u8>),
    /// The last valid frame sent cut short, keeping at least one byte. Nothing
    /// if no valid frame was sent yet.
    Truncated(u8),
    /// A valid HostHello without its delimiter. A following zero completes the
    /// hello; any other frame merges into its bytes and makes it invalid.
    Partial,
    /// A frame past the size limit, delimiter included. The server rejects it
    /// as soon as the limit is exceeded, ending any session or handshake. Its
    /// remaining bytes and any partial hello in front are discarded together.
    Oversized,

    // Calls through the server and its senders.
    /// Retains the server's current sender separately, replacing any previously
    /// retained handle. Without a current sender, clears the retained slot.
    Retain,
    /// Sends a message through the server's current sender, without a request.
    Send(u8),
    /// Sends through the retained sender, including after its session ends.
    /// Without a retained handle, checks the same refusal as a missing sender.
    SendRetained(u8),
    /// Sends a message one byte over the conservative send limit.
    SendOversized,
    /// Ends the server's session locally and signals the client. No local
    /// disconnection event is expected; the stream can establish another session.
    Disconnect,

    // Read scheduling and faults.
    /// Limits each read to this many bytes. Zero removes the limit.
    Chunk(u8),
    /// Batches up to this many steps into one read. Stops at a step that produces
    /// a receive event, so the driver handles it before the model advances again.
    /// A step that queues no frames also ends the batch.
    Batch(u8),
    /// The read fails with `WouldBlock`, handing control back to the driver.
    Yield,
    /// The read returns `Interrupted`. Framing retries without a server event.
    Interrupt,
    /// An adapter read returns an early timeout; the server keeps waiting without a transition.
    ReadTimeout,

    // Write faults.
    /// The server's writes fail until a Heal step.
    Break,
    /// The server's writes work again.
    Heal,
    /// Cuts the next matching server write. If requested, all later writes fail
    /// until a Heal step.
    Cut { point: CutPoint, then_broken: bool },
    /// The next matching output operation expires after the selected prefix,
    /// leaving no budget for a failure notification on that operation.
    Timeout(CutPoint),
}

impl ClientStep {
    /// Whether the driver must act on the server or one of its sender handles.
    fn is_action(&self) -> bool {
        matches!(
            self,
            Self::Retain
                | Self::Send(_)
                | Self::SendRetained(_)
                | Self::SendOversized
                | Self::Disconnect
        )
    }

    /// Whether this step can join an input batch without driver or I/O changes.
    fn queues_frames(&self) -> bool {
        !self.is_action()
            && !matches!(
                self,
                ClientStep::Yield
                    | ClientStep::Interrupt
                    | ClientStep::Break
                    | ClientStep::Heal
                    | ClientStep::Cut { .. }
                    | ClientStep::Chunk(_)
                    | ClientStep::Batch(_)
                    | ClientStep::Timeout(_)
                    | ClientStep::ReadTimeout
            )
    }
}

/// Server state predicted by the model.
#[derive(Clone, Copy, Debug, PartialEq, Eq)]
enum State {
    /// No session and no handshake in progress.
    Idle,
    /// A reset arrived; the server is waiting for HostHello.
    AwaitHello,
    /// ArkHello was sent; the server is waiting for HostAck.
    AwaitAck,
    /// A session is live in both directions.
    Established,
}

impl Default for State {
    fn default() -> State {
        State::Idle
    }
}

/// Final model state and observed counts for scenario assertions.
#[derive(Clone, Copy, Debug, Default, PartialEq, Eq)]
struct ClientSummary {
    state: State,      // State the server ended up in
    dropped: usize,    // Empty frames the server emitted
    fragments: usize,  // Frames the server left cut short, terminated later
    handshakes: usize, // ArkHellos the server emitted
    delivered: usize,  // Requests the server delivered
    replies: usize,    // Replies and probes that reached the client
    reads: usize,      // Reads that handed the server bytes
}

/// Meaning of an incoming frame in the model.
enum Frame {
    /// The empty frame, a reset.
    Empty,
    /// A valid HostHello announcing the keys.
    Hello(Box<HelloKeys>),
    /// A valid HostAck for the ArkHello last received.
    Ack,
    /// A request with the id, sealed in the session.
    Request(u64),
    /// Sealed bytes outside the tagged request format, still valid transport data.
    Garbage,
    /// Anything else, refused in every state.
    Junk,
}

/// Unterminated input retained until the next frame delimiter.
enum Partial {
    /// The stream is at a frame boundary.
    Boundary,
    /// A hello completed successfully only if the next byte is a delimiter.
    Hello(Box<HelloKeys>),
    /// Bytes no delimiter can complete into anything valid.
    Junk,
}

/// Expected server frame and the data needed to verify it.
enum Emit {
    /// An empty frame from a session-end signal or an unused recovery delimiter.
    Dropped,
    /// The prefix of a frame cut short, meaning nothing to the client.
    Fragment,
    /// The handshake reply sealed to these client keys.
    ArkHello(Box<HelloKeys>),
    /// A sealed tagged reply and the receiver needed to open it.
    Reply(u64, Rc<RefCell<xhpke::Receiver>>),
}

impl Emit {
    /// Name of the frame.
    fn name(&self) -> &'static str {
        match self {
            Emit::Dropped => "Dropped",
            Emit::Fragment => "Fragment",
            Emit::ArkHello(_) => "ArkHello",
            Emit::Reply(_, _) => "Reply",
        }
    }
}

/// Unterminated server output left by a failed send. The next recovery delimiter
/// completes it.
enum Tail {
    /// A prefix of the body, decoding to nothing the client accepts.
    Fragment,
    /// A complete body that becomes a valid frame when its delimiter arrives.
    Body(Emit),
}

/// Server output whose success or failure the model must predict.
enum Payload {
    /// A frame expected by the output verifier.
    Frame(Emit),
    /// The signal that the server has no session, a lone delimiter.
    Signal,
}

/// What the model expects `recv` to surface for the last step.
#[derive(Clone, Copy, Debug, PartialEq, Eq)]
enum Outcome {
    /// The server keeps reading.
    Absorbed,
    /// A request with this tag is delivered.
    Message(u64),
    /// Untagged bytes are delivered without ending the session.
    Garbage,
    /// `Event::Disconnected` after a reset or invalid frame ends the session.
    Ended,
    /// `Event::Connected` after HostAck establishes a session.
    Opened,
    /// `Error::RecvFailed` carrying `WouldBlock`.
    Yield,
    /// `Error::SendFailed`, an ArkHello whose write or flush failed.
    SendFailed,
    /// `Error::Terminated` after the script runs out.
    Terminated,
}

/// Mock client along with the model of the server it drives.
struct MockClient {
    steps: VecDeque<ClientStep>,
    action: Option<ClientStep>,      // Driver action that interrupted a receive call
    identity: xdsa::PublicKey, // The server's identity, verifying its hellos
    outbox: Outbox,            // Frames the server wrote
    bytes: Vec<u8>,            // Current input batch, retained until fully delivered
    offset: usize,             // Position within the current input batch
    chunk: usize,              // Maximum bytes per read; zero means unlimited
    batch: usize,              // Steps remaining in the current input batch
    broken: bool,              // Whether the server's writes fail
    cut: Option<CutPoint>,     // Cut armed for the next matching server write
    timeout: bool,             // Whether the armed cut expires the operation budget
    timed_out: bool,           // Whether the last modeled send exhausted that budget

    state: State,       // State the server should be in
    partial: Partial,   // Unterminated frame in front of the server
    resync: bool,       // Failed output requires a recovery delimiter before the next send
    tail: Option<Tail>, // Unterminated frame the server left behind
    emits: Vec<Emit>,   // Frames the server should have emitted since the last sync
    outcome: Outcome,   // What recv should surface for the last step
    held: bool,         // Receive side owes a Disconnected event when this session ends

    pending: Option<Pending>, // ArkHello received, awaiting the client's ack
    sender: Option<xhpke::Sender>, // Seals client requests in the current session
    receiver: Option<Rc<RefCell<xhpke::Receiver>>>, // Opens replies, including those awaiting verification

    last_hello: Option<(Vec<u8>, HelloKeys)>, // Last HostHello sent, framed
    last_ack: Option<Vec<u8>>,           // Last HostAck sent, framed
    last_request: Option<Vec<u8>>,       // Last request sent, framed
    last_valid: Option<Vec<u8>>,         // Last valid frame sent, delimiter stripped

    summary: ClientSummary,
}

impl MockClient {
    /// Starts an idle model with a bounded script and the server's output queue.
    fn new(steps: &[ClientStep], identity: xdsa::PublicKey, outbox: Outbox) -> Self {
        Self {
            steps: steps.iter().take(MAX_STEPS).cloned().collect(),
            action: None,
            identity,
            outbox,
            bytes: Vec::new(),
            offset: 0,
            chunk: 0,
            batch: 0,
            broken: false,
            cut: None,
            timeout: false,
            timed_out: false,
            state: State::Idle,
            partial: Partial::Boundary,
            resync: false,
            tail: None,
            emits: Vec::new(),
            outcome: Outcome::Absorbed,
            held: false,
            pending: None,
            sender: None,
            receiver: None,
            last_hello: None,
            last_ack: None,
            last_request: None,
            last_valid: None,
            summary: ClientSummary::default(),
        }
    }

    /// Takes an action at the current script position, before another receive
    /// can consume frames. Actions encountered inside a receive are saved by Feed.
    fn next_action(&mut self) -> Option<ClientStep> {
        if self.action.is_some() {
            return self.action.take();
        }
        if self.bytes.is_empty() && self.steps.front().is_some_and(ClientStep::is_action) {
            self.sync();
            return self.steps.pop_front();
        }
        None
    }

    /// Queues one step's input and predicts the server's reaction to its frames.
    fn execute(&mut self, step: ClientStep) {
        match step {
            ClientStep::Reset => {
                self.deliver(Frame::Empty);
                self.bytes.push(0x00);
            }
            ClientStep::ResetPair => {
                self.deliver(Frame::Empty);
                self.deliver(Frame::Empty);
                self.bytes.extend([0x00, 0x00]);
            }
            ClientStep::Hello => {
                let keys = HelloKeys::generate();
                let framed = frame(&keys.hello());
                self.record(&framed);
                self.last_hello = Some((framed.clone(), keys.clone()));
                self.deliver(Frame::Hello(Box::new(keys)));
                self.bytes.extend(framed);
            }
            ClientStep::HelloReplay => {
                if let Some((framed, keys)) = self.last_hello.clone() {
                    self.deliver(Frame::Hello(Box::new(keys)));
                    self.bytes.extend(framed);
                }
            }
            ClientStep::HelloBadKey => {
                let signer = xdsa::SecretKey::generate().public_key().to_bytes().to_vec();
                let hello = cbor::encode(&(signer, vec![0xffu8; xhpke::PUBLIC_KEY_SIZE])).unwrap();
                self.junk(&hello);
            }
            ClientStep::Ack => match self.pending.take() {
                Some(pending) => {
                    let (ack, session) = pending.ack(&self.identity).unwrap();
                    let (sender, receiver) = (session.sender, session.receiver);
                    let framed = frame(&ack);
                    self.record(&framed);
                    self.last_ack = Some(framed.clone());
                    self.sender = Some(sender);
                    self.receiver = Some(Rc::new(RefCell::new(receiver)));
                    self.deliver(Frame::Ack);
                    self.bytes.extend(framed);
                }
                None => self.junk(b"ack without a pending server hello"),
            },
            ClientStep::AckReplay => {
                if let Some(framed) = self.last_ack.clone() {
                    self.deliver(Frame::Junk);
                    self.bytes.extend(framed);
                }
            }
            ClientStep::AckTampered => self.bad_ack(AckFlaw::Tampered),
            ClientStep::AckBadAuth => self.bad_ack(AckFlaw::Auth),
            ClientStep::AckBadSigner => self.bad_ack(AckFlaw::Signer),
            ClientStep::AckBadPayload => self.bad_ack(AckFlaw::Payload),
            ClientStep::AckBadEncap => self.bad_ack(AckFlaw::Encap),
            ClientStep::Request(tag) => match self.sender.as_mut() {
                Some(sender) => {
                    let id = tag as u64;
                    let packet = sealing::seal(sender, &payload(id)).unwrap();
                    let framed = frame(&packet);
                    self.record(&framed);
                    self.last_request = Some(framed.clone());
                    self.deliver(Frame::Request(id));
                    self.bytes.extend(framed);
                }
                None => self.junk(b"request without a session"),
            },
            ClientStep::RequestReplay => {
                if let Some(framed) = self.last_request.clone() {
                    self.deliver(Frame::Junk);
                    self.bytes.extend(framed);
                }
            }
            ClientStep::RequestTampered => match self.sender.as_mut() {
                Some(sender) => {
                    let mut packet = sealing::seal(sender, &payload(0)).unwrap();
                    *packet.last_mut().unwrap() ^= 0xff;
                    self.junk(&packet);
                }
                None => self.junk(b"tampered request without a session"),
            },
            ClientStep::Garbage => match self.sender.as_mut() {
                Some(sender) => {
                    let packet = sender.seal(&[0x07], &[]).unwrap();
                    let framed = frame(&packet);
                    self.record(&framed);
                    self.deliver(Frame::Garbage);
                    self.bytes.extend(framed);
                }
                None => self.junk(b"garbage without a session"),
            },
            ClientStep::Junk(mut junk) => {
                for byte in junk.iter_mut() {
                    if *byte == 0 {
                        *byte = 1;
                    }
                }
                if junk.is_empty() {
                    junk.push(1);
                }
                self.deliver(Frame::Junk);
                self.bytes.extend(junk);
                self.bytes.push(0x00);
            }
            ClientStep::Truncated(n) => {
                if let Some(valid) = self.last_valid.clone() {
                    let keep = match valid.len() {
                        0..=1 => 1,
                        len => 1 + n as usize % (len - 1),
                    };
                    self.deliver(Frame::Junk);
                    self.bytes.extend(&valid[..keep]);
                    self.bytes.push(0x00);
                }
            }
            ClientStep::Partial => {
                let keys = HelloKeys::generate();
                let mut framed = frame(&keys.hello());
                framed.pop();
                self.bytes.extend(framed);
                self.partial = match self.partial {
                    Partial::Boundary => Partial::Hello(Box::new(keys)),
                    _ => Partial::Junk,
                };
            }
            ClientStep::Oversized => {
                self.partial = Partial::Boundary;
                // Rejection precedes draining the tail and delimiter. An ended
                // session stops batching here, so the driver sees its event
                // before any later step changes the model again.
                self.deliver(Frame::Junk);
                self.bytes.resize(self.bytes.len() + MAX_FRAME_SIZE + 1, 1);
                self.bytes.push(0x00);
            }
            ClientStep::Chunk(n) => self.chunk = n as usize,
            ClientStep::Batch(n) => self.batch = n as usize,
            ClientStep::Break => self.set_broken(true),
            ClientStep::Heal => self.set_broken(false),
            ClientStep::Cut { point, then_broken } => {
                self.cut = Some(point);
                self.timeout = false;
                self.outbox.set_cut(point);
                if then_broken {
                    self.set_broken(true);
                }
            }
            ClientStep::Timeout(point) => {
                self.cut = Some(point);
                self.timeout = true;
                self.outbox.set_timeout(point);
            }
            ClientStep::Yield
            | ClientStep::Interrupt
            | ClientStep::ReadTimeout
            | ClientStep::Retain
            | ClientStep::Send(_)
            | ClientStep::SendRetained(_)
            | ClientStep::SendOversized
            | ClientStep::Disconnect => {
                unreachable!("control steps are handled by the reader and driver")
            }
        }
    }

    /// Queues a defective HostAck, or junk if no ArkHello is pending. Both should
    /// make the server reject the handshake.
    fn bad_ack(&mut self, flaw: AckFlaw) {
        match self.pending.as_ref() {
            Some(pending) => {
                let ack = pending.bad_ack(&self.identity, flaw).unwrap();
                self.junk(&ack);
            }
            None => self.junk(b"bad ack without a pending server hello"),
        }
    }

    /// Queues a valid COBS frame of content the server refuses.
    fn junk(&mut self, text: &[u8]) {
        self.deliver(Frame::Junk);
        self.bytes.extend(frame(text));
    }

    /// Remembers the frame as the last valid one, for truncating later.
    fn record(&mut self, framed: &[u8]) {
        self.last_valid = Some(framed[..framed.len() - 1].to_vec());
    }

    /// Makes the server's writes fail, or work again.
    fn set_broken(&mut self, broken: bool) {
        self.outbox.set_broken(broken);
        self.broken = broken;
    }

    /// Predicts the server's response to an incoming frame. A preceding partial
    /// hello is valid only if this frame supplies its missing delimiter. Other
    /// combinations of partial input and new bytes become junk.
    fn deliver(&mut self, frame: Frame) {
        let frame = match std::mem::replace(&mut self.partial, Partial::Boundary) {
            Partial::Boundary => frame,
            Partial::Hello(keys) => match frame {
                Frame::Empty => Frame::Hello(keys),
                _ => Frame::Junk,
            },
            Partial::Junk => Frame::Junk,
        };
        match (self.state, frame) {
            // A reset starts a handshake in every state without a wire reply.
            // Report any old session's end before continuing the handshake.
            (_, Frame::Empty) => {
                if std::mem::take(&mut self.held) {
                    self.outcome = Outcome::Ended;
                }
                self.forget();
                self.state = State::AwaitHello;
            }
            // Failed ArkHello output aborts the handshake. A non-timeout failure
            // also attempts a session-end signal with the remaining budget.
            (State::AwaitHello, Frame::Hello(keys)) => {
                if self.send(Payload::Frame(Emit::ArkHello(keys))) {
                    self.state = State::AwaitAck;
                } else {
                    self.forget();
                    self.state = State::Idle;
                    if !self.timed_out {
                        self.send(Payload::Signal);
                    }
                    self.outcome = Outcome::SendFailed;
                }
            }
            // Deliver the new sender as soon as HostAck completes the handshake.
            (State::AwaitAck, Frame::Ack) => {
                self.state = State::Established;
                self.held = true;
                self.outcome = Outcome::Opened;
            }
            (State::Established, Frame::Request(id)) => {
                self.outcome = Outcome::Message(id);
            }
            // Transport delivers opaque bytes without inspecting their format.
            (State::Established, Frame::Garbage) => {
                self.outcome = Outcome::Garbage;
            }
            // Invalid input abandons the handshake or session and attempts a
            // wire signal. An existing session also produces Disconnected.
            _ => {
                self.forget();
                self.state = State::Idle;
                self.send(Payload::Signal);
                if std::mem::take(&mut self.held) {
                    self.outcome = Outcome::Ended;
                }
            }
        }
    }

    /// Predicts one server send, including its recovery delimiter in the same
    /// write as the frame. An applicable cut fires before a broken stream;
    /// a middle cut at zero can accept only recovery, leaving no new fragment.
    fn send(&mut self, payload: Payload) -> bool {
        let frame = matches!(&payload, Payload::Frame(_));
        let cut = match self.cut {
            Some(CutPoint::Start) => self.cut.take(),
            Some(CutPoint::Middle(_)) if frame => self.cut.take(),
            Some(CutPoint::Delimiter | CutPoint::Flush) if frame || self.resync => self.cut.take(),
            _ => None,
        };
        self.timed_out = cut.is_some() && std::mem::take(&mut self.timeout);
        let sent = match cut {
            Some(CutPoint::Start) => false,
            None if self.broken => false,
            _ => {
                if self.resync {
                    self.zero_out();
                }
                match (payload, cut) {
                    (Payload::Frame(_), Some(CutPoint::Middle(n))) => {
                        if !self.resync || n != 0 {
                            self.tail = Some(Tail::Fragment);
                        }
                        false
                    }
                    (Payload::Frame(emit), Some(CutPoint::Delimiter)) => {
                        self.tail = Some(Tail::Body(emit));
                        false
                    }
                    (Payload::Frame(emit), _) => {
                        self.emits.push(emit);
                        cut != Some(CutPoint::Flush)
                    }
                    (Payload::Signal, Some(CutPoint::Delimiter)) => false,
                    (Payload::Signal, _) => {
                        self.zero_out();
                        cut != Some(CutPoint::Flush)
                    }
                }
            }
        };
        self.resync = !sent;
        sent
    }

    /// Predicts a delimiter reaching the wire. It completes any pending tail,
    /// or creates an empty frame when no tail exists.
    fn zero_out(&mut self) {
        self.emits.push(match self.tail.take() {
            None => Emit::Dropped,
            Some(Tail::Fragment) => Emit::Fragment,
            Some(Tail::Body(emit)) => emit,
        });
    }

    /// Clears the model's current session and pending handshake. Expected replies
    /// retain their receiver until the output verifier checks them.
    fn forget(&mut self) {
        self.sender = None;
        self.receiver = None;
        self.pending = None;
    }

    /// Predicts a read error or EOF. It aborts an unfinished handshake; an
    /// established session remains until the server reports its end.
    fn interrupt(&mut self, outcome: Outcome) {
        if matches!(self.state, State::AwaitHello | State::AwaitAck) {
            self.forget();
            self.state = State::Idle;
        }
        self.outcome = outcome;
    }

    /// Checks the receive result, then clears the expectation for the next step.
    fn surfaced(&mut self, outcome: Outcome) {
        assert_eq!(self.outcome, outcome, "model vs server");
        self.outcome = Outcome::Absorbed;
    }

    /// Checks output against all predictions so far. Runs before the next input
    /// batch and at the end of the script.
    fn sync(&mut self) {
        assert_eq!(
            self.outcome,
            Outcome::Absorbed,
            "server read on past a step it should have surfaced"
        );
        let frames = self.outbox.take_frames();
        let emits = std::mem::take(&mut self.emits);
        let names: Vec<&str> = emits.iter().map(Emit::name).collect();
        assert_eq!(frames.len(), emits.len(), "model expected {names:?}");
        assert_eq!(
            self.outbox.has_tail(),
            self.tail.is_some(),
            "unterminated frame"
        );
        for (frame, emit) in frames.iter().zip(emits) {
            match emit {
                Emit::Dropped => {
                    assert!(
                        frame.is_empty(),
                        "expected an empty frame, server emitted {} bytes",
                        frame.len()
                    );
                    self.summary.dropped += 1;
                }
                Emit::Fragment => {
                    assert!(
                        !frame.is_empty(),
                        "expected a cut frame, server emitted an empty one"
                    );
                    self.summary.fragments += 1;
                }
                Emit::ArkHello(keys) => {
                    self.receive_hello(frame, *keys);
                    self.summary.handshakes += 1;
                }
                Emit::Reply(id, receiver) => {
                    let opened = sealing::open(&mut receiver.borrow_mut(), &unframe(frame).unwrap())
                        .expect("reply failed to open");
                    assert_eq!(opened, payload(id));
                    self.summary.replies += 1;
                }
            }
        }
    }

    /// Verifies ArkHello against the client keys and pinned server identity.
    /// Saves the response for HostAck only while the handshake is still active.
    fn receive_hello(&mut self, frame: &[u8], keys: HelloKeys) {
        let packet = unframe(frame).expect("server wrote an undecodable frame");
        let (signed, _) = keys.read_answer(&packet, Answerer::Server).expect("server hello failed to decrypt");
        let (ark_crypto, receiver) = keys
            .accept(&signed, &self.identity, Answerer::Server)
            .expect("server hello signature invalid");
        if self.state == State::AwaitAck {
            self.pending = Some(Pending {
                keys,
                ark_crypto,
                receiver,
            });
        }
    }
}

impl MockClient {
    /// Serves a read of the server, advancing the script.
    fn read(&mut self, buf: &mut [u8]) -> Result<usize, ErrorKind> {
        if self.bytes.is_empty() {
            // Verify the previous batch's output before advancing the script.
            self.sync();
            self.batch = 0;
            loop {
                match self.steps.pop_front() {
                    None => {
                        self.interrupt(Outcome::Terminated);
                        return Ok(0);
                    }
                    Some(ClientStep::Yield) => {
                        self.interrupt(Outcome::Yield);
                        return Err(ErrorKind::WouldBlock);
                    }
                    Some(ClientStep::Interrupt) => return Err(ErrorKind::Interrupted),
                    Some(ClientStep::ReadTimeout) => return Err(ErrorKind::TimedOut),
                    Some(step) if step.is_action() => {
                        self.action = Some(step);
                        self.interrupt(Outcome::Yield);
                        return Err(ErrorKind::WouldBlock);
                    }
                    Some(step) => self.execute(step),
                }
                if !self.bytes.is_empty() {
                    break;
                }
            }
            // Batch later frames into this read. Stop when the driver must
            // handle a receive event or the next step needs a separate action.
            while self.batch > 1
                && self.outcome == Outcome::Absorbed
                && self.steps.front().is_some_and(ClientStep::queues_frames)
            {
                let step = self.steps.pop_front().unwrap();
                self.execute(step);
                self.batch -= 1;
            }
        }
        let mut n = buf.len().min(self.bytes.len() - self.offset);
        if self.chunk > 0 {
            n = n.min(self.chunk);
        }
        buf[..n].copy_from_slice(&self.bytes[self.offset..self.offset + n]);
        self.offset += n;
        if self.offset == self.bytes.len() {
            self.bytes.clear();
            self.offset = 0;
        }
        self.summary.reads += 1;
        Ok(n)
    }
}

/// The server under test with its outgoing half and its stream.
struct ServerSide {
    server: Server<Attestation>,
    outbound: Outbound,
    shutdown: Shutdown,
    outbox: Outbox,
    buf: Vec<u8>,
}

impl ServerSide {
    fn new(signer: xdsa::SecretKey, attestation: Attestation, outbox: Outbox) -> ServerSide {
        ServerSide {
            server: Server::new_at(signer, attestation, TIMESTAMP),
            outbound: Outbound::new(Side::Server),
            shutdown: Shutdown::new(),
            outbox,
            buf: vec![0; MAX_FRAME_SIZE + 1],
        }
    }

    /// Receives one event or error, reading and writing as the server asks.
    fn recv(&mut self, client: &mut MockClient) -> Result<Event, Error> {
        loop {
            match self.server.recv(&mut self.outbound, 0) {
                ServerMove::Again => {}
                ServerMove::Read(_) => {
                    let read = read_input(&mut self.shutdown, &mut self.buf, |buf| client.read(buf));
                    match read {
                        Ok(0) => {
                            self.server.interrupt();
                            return Err(Error::Terminated);
                        }
                        Ok(n) => self.server.feed(&self.buf[..n]),
                        Err(kind) => {
                            self.server.interrupt();
                            return Err(Error::RecvFailed(kind));
                        }
                    }
                }
                ServerMove::Write(bytes, _) => {
                    let outcome = write_output(&mut self.shutdown, &self.outbox, &bytes);
                    if let Some(signal) = self.server.sent(&mut self.outbound, outcome) {
                        let signaled = write_output(&mut self.shutdown, &self.outbox, &signal);
                        assert!(self.server.sent(&mut self.outbound, signaled).is_none());
                    }
                }
                ServerMove::Event(event) => return Ok(event),
                ServerMove::Failed(error) => return Err(error),
            }
        }
    }

    /// Sends through a handle of the server's.
    fn send(&mut self, sender: Option<&Sender>, message: &[u8]) -> Result<(), Error> {
        send_through(sender, &mut self.outbound, &mut self.shutdown, &self.outbox, message)
    }

    /// Ends the session and signals the client.
    fn disconnect(&mut self) {
        let signal = self.server.disconnect(&mut self.outbound);
        let signaled = write_output(&mut self.shutdown, &self.outbox, &signal);
        assert!(self.outbound.sent(signaled).is_none());
    }
}

/// Checks that the current sender is usable exactly when the model expects a
/// session. An oversized send checks admission without sealing or writing bytes.
fn check_server(server: &mut ServerSide, sender: Option<&Sender>, client: &MockClient) {
    let established = client.state == State::Established;
    match server.send(sender, &oversized_message()) {
        Err(Error::PacketTooLarge(_)) => {
            assert!(established, "server has a session the model does not")
        }
        Err(Error::EncryptionFailed(_)) => {
            assert!(!established, "server lacks the session the model has")
        }
        other => panic!("unexpected oversized send result: {other:?}"),
    }
}

/// Sends a tagged message and checks its result against the model. A failed send
/// ends the sending session and attempts a wire signal unless it timed out. The
/// receive side reports the session's end when it next handles a frame or EOF.
fn send_reply(server: &mut ServerSide, sender: Option<&Sender>, client: &mut MockClient, id: u64) {
    let mut expected = None;
    if client.state == State::Established {
        let receiver = client.receiver.clone().expect("established without a session");
        let sent = client.send(Payload::Frame(Emit::Reply(id, receiver)));
        if !sent {
            client.forget();
            client.state = State::Idle;
            if !client.timed_out {
                client.send(Payload::Signal);
            }
        }
        expected = Some(sent);
    }
    let sent = server.send(sender, &payload(id));
    match (expected, sent) {
        (Some(true), Ok(())) => {}
        (Some(false), Err(Error::SendFailed(_))) => {}
        (None, Err(Error::EncryptionFailed(_))) => {}
        (expected, sent) => panic!("model expected {expected:?}, server returned {sent:?}"),
    }
}

/// Runs a script against a real server and returns the observed counts. Panics if
/// server output or receive results differ from the model.
fn run_client(steps: &[ClientStep]) -> ClientSummary {
    let signer = xdsa::SecretKey::generate();
    let attestation = self_attestation(&signer);
    let outbox = Outbox::default();
    let mut client = MockClient::new(steps, signer.public_key(), outbox.clone());
    let mut server = ServerSide::new(signer, attestation, outbox);

    let mut sender: Option<Sender> = None;
    let mut retained: Option<Sender> = None;
    let mut generation = 0u64;
    let mut retained_generation = None;
    loop {
        if let Some(action) = client.next_action() {
            match action {
                ClientStep::Retain => {
                    retained = sender;
                    retained_generation = match client.state {
                        State::Established => Some(generation),
                        _ => None,
                    };
                }
                ClientStep::Send(tag) => {
                    send_reply(&mut server, sender.as_ref(), &mut client, tag as u64)
                }
                ClientStep::SendRetained(tag) => {
                    if client.state == State::Established && retained_generation == Some(generation)
                    {
                        send_reply(&mut server, retained.as_ref(), &mut client, tag as u64);
                    } else {
                        assert!(matches!(
                            server.send(retained.as_ref(), &payload(tag as u64)),
                            Err(Error::EncryptionFailed(_))
                        ));
                    }
                }
                ClientStep::SendOversized => check_server(&mut server, sender.as_ref(), &client),
                ClientStep::Disconnect => {
                    client.forget();
                    // A reset already surfaced leaves the next handshake
                    // scheduled even if the owner disconnects before receiving.
                    if client.state != State::AwaitHello {
                        client.state = State::Idle;
                    }
                    client.held = false;
                    client.send(Payload::Signal);
                    server.disconnect();
                }
                _ => unreachable!("only owner actions reach the driver"),
            }
            check_server(&mut server, sender.as_ref(), &client);
            client.sync();
            continue;
        }
        match server.recv(&mut client) {
            // Reply to each tagged request predicted by the model. Untagged
            // bytes are delivered too, but need no reply.
            Ok(Event::Message(message)) => match client.outcome {
                Outcome::Message(id) if message == payload(id) => {
                    client.surfaced(Outcome::Message(id));
                    client.summary.delivered += 1;
                    send_reply(&mut server, sender.as_ref(), &mut client, id);
                }
                _ if message == [0x07] => client.surfaced(Outcome::Garbage),
                outcome => panic!("server delivered {message:?} where the model has {outcome:?}"),
            },
            // A reset or invalid frame ended the previous session.
            Ok(Event::Disconnected) => {
                client.surfaced(Outcome::Ended);
                check_server(&mut server, sender.as_ref(), &client);
            }
            // The new sender is usable immediately after the handshake.
            Ok(Event::Connected(opened)) => {
                sender = Some(opened);
                client.surfaced(Outcome::Opened);
                generation += 1;
                check_server(&mut server, sender.as_ref(), &client);
            }
            // Probe sending whenever the script yields control to the driver.
            Err(Error::RecvFailed(ErrorKind::WouldBlock)) => {
                client.surfaced(Outcome::Yield);
                check_server(&mut server, sender.as_ref(), &client);
                if client.action.is_none() {
                    send_reply(&mut server, sender.as_ref(), &mut client, PROBE_ID);
                }
            }
            Err(Error::Terminated) => {
                client.surfaced(Outcome::Terminated);
                break;
            }
            Err(Error::SendFailed(_)) => client.surfaced(Outcome::SendFailed),
            Err(err) => panic!("unexpected error from the server: {err:?}"),
        }
    }
    client.sync();
    check_server(&mut server, sender.as_ref(), &client);
    client.summary.state = client.state;
    client.summary
}

/// One step of a mock server's script, either a call the driver makes into the
/// client or input for it. Input needing a session or a HostHello the server does
/// not have degrades into junk, so any sequence of steps is a valid script.
#[derive(Clone, Debug, PartialEq, Eq)]
enum ServerStep {
    // Calls into the client.
    /// The client runs a handshake.
    Handshake,
    /// The client sends a tagged request.
    Send(u8),
    /// The client reads the next message.
    Recv,
    /// Retains the client's current sender separately.
    Retain,
    /// Sends through the retained sender, including after its session ended.
    SendRetained(u8),
    /// Sends a message one byte over the send limit.
    SendOversized,

    // Handshake input.
    /// A valid ArkHello answering the latest HostHello.
    Hello,
    /// An ArkHello sealed to a key the client never had.
    HelloStale,
    /// An ArkHello with a flipped ciphertext byte.
    HelloTampered,
    /// An ArkHello bound to another client's keys.
    HelloBadAuth,
    /// An ArkHello signed by a stranger.
    HelloBadSigner,
    /// An ArkHello whose sealed payload is something else.
    HelloBadPayload,
    /// An ArkHello carrying an invalid encryption key.
    HelloBadKey,
    /// An ArkHello with an encapsulated key of the wrong size.
    HelloBadEncap,
    /// An ArkHello with an attestation of the wrong shape.
    HelloBadAttest,

    // Session input.
    /// A sealed reply tagged by the byte.
    Reply(u8),
    /// The last sealed reply, repeated. Nothing if none was sent yet.
    ReplyReplay,
    /// A sealed reply with a flipped ciphertext byte.
    ReplyTampered,
    /// A sealed packet outside the tagged format.
    Garbage,
    /// The empty frame signaling a dropped session.
    Dropped,

    // Malformed and partial frames.
    /// The bytes encoded into a frame, decodable but meaningless.
    Junk(Vec<u8>),
    /// A frame that does not decode.
    Undecodable,
    /// The last valid frame cut short. Nothing if none was sent yet.
    Truncated(u8),
    /// A valid ArkHello without its delimiter.
    Partial,
    /// A frame past the size limit.
    Oversized,

    // Read scheduling and faults.
    /// Limits each read to this many bytes. Zero removes the limit.
    Chunk(u8),
    /// Batches up to this many frames into one read.
    Batch(u8),
    /// The read fails.
    Yield,
    /// The read is interrupted.
    Interrupt,
    /// The read times out early.
    ReadTimeout,

    // Write faults.
    /// The client's writes fail until a Heal step.
    Break,
    /// The client's writes work again.
    Heal,
    /// Cuts the next matching client write.
    Cut { point: CutPoint, then_broken: bool },
    /// The next matching output operation expires after the selected prefix.
    Timeout(CutPoint),
}

impl ServerStep {
    /// Whether the step is a call into the client.
    fn is_call(&self) -> bool {
        matches!(
            self,
            ServerStep::Handshake
                | ServerStep::Send(_)
                | ServerStep::Recv
                | ServerStep::Retain
                | ServerStep::SendRetained(_)
                | ServerStep::SendOversized
        )
    }

    /// Whether the step fails a read.
    fn is_fault(&self) -> bool {
        matches!(
            self,
            ServerStep::Yield | ServerStep::Interrupt | ServerStep::ReadTimeout
        )
    }
}

/// Counts of what a run observed.
#[derive(Clone, Copy, Debug, Default, PartialEq, Eq)]
struct ServerSummary {
    established: bool, // Whether the client ended up with a session
    handshakes: usize, // Handshakes that succeeded
    messages: usize,   // Messages the client read
    resets: usize,     // Session resets the client surfaced
    failures: usize,   // Other errors the client surfaced
    reads: usize,      // Reads that handed the client bytes
}

/// What is wrong with an ArkHello.
#[derive(Clone, Copy, Debug, PartialEq, Eq)]
enum HelloFlaw {
    Intact,
    Stale,
    Tampered,
    Auth,
    Signer,
    Payload,
    Key,
    Encap,
    Attest,
}

/// Input of the client, as the model sees it.
#[derive(Clone, Copy, Debug, PartialEq, Eq)]
enum Input {
    /// An ArkHello answering the attempt's hello.
    ArkHello { attempt: u64, flaw: HelloFlaw },
    /// A packet sealed in the session of an attempt.
    Sealed { session: u64, seq: u64, tag: Option<u8> },
    /// The empty frame.
    Dropped,
    /// A decodable frame meaning nothing.
    Junk,
    /// A frame that does not decode.
    Undecodable,
    /// A frame that may decode or not, to nothing of meaning.
    Mangled,
    /// A frame past the size limit.
    Oversized,
}

/// Unterminated input in front of the client.
#[derive(Clone, Copy, Debug, PartialEq, Eq)]
enum Stub {
    Boundary,
    Hello(Input),
    Junk,
}

/// Call in progress on the client.
#[derive(Clone, Copy, Debug, PartialEq, Eq)]
enum Call {
    Idle,
    Handshake(u64),
    Recv,
}

/// Error kinds the model distinguishes.
#[derive(Clone, Copy, Debug, PartialEq, Eq)]
enum Kind {
    FrameDecoding,
    FrameTooLarge,
    Send,
    Recv,
    Terminated,
    SessionReset,
    InvalidAttestation,
    Handshake,
    Encryption,
}

/// Result of a client call.
#[derive(Clone, Debug, PartialEq, Eq)]
enum Ending {
    Done,
    Message(Vec<u8>),
    Failed(Kind),
}

/// Session on the mock server's side.
struct MockSession {
    id: u64,
    sender: xhpke::Sender,
    receiver: xhpke::Receiver,
    seq: u64,
}

/// Mock server along with the model of the client it drives.
struct MockServer {
    steps: VecDeque<ServerStep>,
    identity: xdsa::SecretKey,
    attestation: Attestation,
    outbox: Outbox,
    queue: VecDeque<(Vec<u8>, Option<Input>)>, // Input produced, not yet read
    bytes: Vec<u8>,                            // Input being handed over
    offset: usize,
    chunk: usize,
    batch: usize,
    partial: Stub,

    broken: bool,
    cut: Option<CutPoint>,
    torn: bool, // Whether output failed at some point, leaving fragments

    attempt: u64, // Handshakes started
    call: Call,
    expect: Option<Vec<Ending>>, // Results that the call may come to
    host_session: Option<u64>,
    host_seq: u64,
    receiving: bool, // Whether the client has a receiving context

    latest_hello: Option<(xdsa::PublicKey, xhpke::PublicKey)>,
    outstanding: Vec<(u64, handshake::Pending)>,
    session: Option<MockSession>,
    last_reply: Option<(Vec<u8>, Input)>,
    last_valid: Option<Vec<u8>>,

    summary: ServerSummary,
}

impl MockServer {
    fn new(steps: &[ServerStep], outbox: Outbox) -> MockServer {
        let identity = xdsa::SecretKey::generate();
        let attestation = self_attestation(&identity);
        MockServer {
            steps: steps.iter().take(MAX_STEPS).cloned().collect(),
            identity,
            attestation,
            outbox,
            queue: VecDeque::new(),
            bytes: Vec::new(),
            offset: 0,
            chunk: 0,
            batch: 0,
            partial: Stub::Boundary,
            broken: false,
            cut: None,
            torn: false,
            attempt: 0,
            call: Call::Idle,
            expect: None,
            host_session: None,
            host_seq: 0,
            receiving: false,
            latest_hello: None,
            outstanding: Vec::new(),
            session: None,
            last_reply: None,
            last_valid: None,
            summary: ServerSummary::default(),
        }
    }

    /// Executes one step that is no call and no read fault.
    fn execute(&mut self, step: ServerStep) {
        self.ingest();
        match step {
            ServerStep::Hello => self.hello(HelloFlaw::Intact),
            ServerStep::HelloStale => self.hello(HelloFlaw::Stale),
            ServerStep::HelloTampered => self.hello(HelloFlaw::Tampered),
            ServerStep::HelloBadAuth => self.hello(HelloFlaw::Auth),
            ServerStep::HelloBadSigner => self.hello(HelloFlaw::Signer),
            ServerStep::HelloBadPayload => self.hello(HelloFlaw::Payload),
            ServerStep::HelloBadKey => self.hello(HelloFlaw::Key),
            ServerStep::HelloBadEncap => self.hello(HelloFlaw::Encap),
            ServerStep::HelloBadAttest => self.hello(HelloFlaw::Attest),
            ServerStep::Reply(tag) => self.reply(Some(tag)),
            ServerStep::Garbage => self.reply(None),
            ServerStep::ReplyReplay => {
                if let Some((framed, sealed)) = self.last_reply.clone() {
                    self.produce(framed, sealed);
                }
            }
            ServerStep::ReplyTampered => match self.session.as_mut() {
                Some(session) => {
                    let mut packet = sealing::seal(&mut session.sender, &payload(0)).unwrap();
                    session.seq += 1;
                    *packet.last_mut().unwrap() ^= 0xff;
                    self.produce(frame(&packet), Input::Junk);
                }
                None => self.junk(b"tampered reply without a session"),
            },
            ServerStep::Dropped => self.produce(vec![0], Input::Dropped),
            ServerStep::Junk(bytes) => self.junk(&bytes),
            ServerStep::Undecodable => self.produce(vec![0xff, 0x01, 0x00], Input::Undecodable),
            ServerStep::Truncated(n) => {
                if let Some(valid) = self.last_valid.clone() {
                    let keep = match valid.len() {
                        0..=1 => 1,
                        len => 1 + n as usize % (len - 1),
                    };
                    let mut framed = valid[..keep].to_vec();
                    framed.push(0);
                    self.produce(framed, Input::Mangled);
                }
            }
            ServerStep::Partial => {
                let (mut framed, input) = self.craft(HelloFlaw::Intact);
                framed.pop();
                self.queue.push_back((framed, None));
                self.partial = match self.partial {
                    Stub::Boundary => Stub::Hello(input),
                    _ => Stub::Junk,
                };
            }
            ServerStep::Oversized => {
                self.partial = Stub::Boundary;
                let mut framed = vec![1; MAX_FRAME_SIZE + 1];
                framed.push(0);
                self.produce(framed, Input::Oversized);
            }
            ServerStep::Chunk(n) => self.chunk = n as usize,
            ServerStep::Batch(n) => self.batch = n as usize,
            ServerStep::Break => self.set_broken(true),
            ServerStep::Heal => self.set_broken(false),
            ServerStep::Cut { point, then_broken } => {
                self.cut = Some(point);
                self.outbox.set_cut(point);
                if then_broken {
                    self.set_broken(true);
                }
            }
            ServerStep::Timeout(point) => {
                self.cut = Some(point);
                self.outbox.set_timeout(point);
            }
            step => unreachable!("{step:?} is handled by the driver and the reader"),
        }
    }

    /// Queues a frame. An unterminated one in front swallows it, a lone delimiter
    /// completing a partial hello.
    fn produce(&mut self, framed: Vec<u8>, input: Input) {
        let input = match (std::mem::replace(&mut self.partial, Stub::Boundary), input) {
            (Stub::Boundary, input) => input,
            (Stub::Hello(hello), Input::Dropped) => hello,
            _ => Input::Mangled,
        };
        self.queue.push_back((framed, Some(input)));
    }

    fn junk(&mut self, text: &[u8]) {
        self.produce(frame(text), Input::Junk);
    }

    fn hello(&mut self, flaw: HelloFlaw) {
        let (framed, input) = self.craft(flaw);
        if flaw == HelloFlaw::Intact {
            self.last_valid = Some(framed[..framed.len() - 1].to_vec());
        }
        self.produce(framed, input);
    }

    /// Makes an ArkHello answering the latest HostHello, flawed as requested.
    fn craft(&mut self, flaw: HelloFlaw) -> (Vec<u8>, Input) {
        let (host_signer, host_crypto) = match self.latest_hello.clone() {
            Some(hello) => hello,
            None => return (frame(b"server hello without a client hello"), Input::Junk),
        };
        let key = xhpke::SecretKey::generate();
        let (sender, encap) = host_crypto
            .new_sender(handshake::CRYPTO_DOMAIN_WIRE_ARK_TO_HOST.as_bytes())
            .unwrap();
        let attest = match flaw {
            HelloFlaw::Attest => cloud_attestation(&self.identity),
            _ => self.attestation.as_bytes().to_vec(),
        };
        let crypto = match flaw {
            HelloFlaw::Key => vec![0xff; xhpke::PUBLIC_KEY_SIZE],
            _ => key.public_key().to_bytes().to_vec(),
        };
        let encap = match flaw {
            HelloFlaw::Encap => vec![0x42; 3],
            _ => encap.to_vec(),
        };
        let items = match flaw {
            HelloFlaw::Payload => vec![vec![1, 2, 3]],
            _ => vec![attest, crypto, encap],
        };
        let bound = match flaw {
            HelloFlaw::Auth => xdsa::SecretKey::generate().public_key(),
            _ => host_signer.clone(),
        };
        let auth = handshake::encode_keys(&bound, &host_crypto);
        let stranger = xdsa::SecretKey::generate();
        let signer = match flaw {
            HelloFlaw::Signer => &stranger,
            _ => &self.identity,
        };
        let other = xhpke::SecretKey::generate().public_key();
        let recipient = match flaw {
            HelloFlaw::Stale => &other,
            _ => &host_crypto,
        };
        let mut sealed = cose::seal_at(
            cbor::Array(items),
            cbor::Raw(auth),
            signer,
            recipient,
            handshake::CRYPTO_DOMAIN_WIRE.as_bytes(),
            TIMESTAMP,
        )
        .unwrap();
        if flaw == HelloFlaw::Tampered {
            *sealed.last_mut().unwrap() ^= 0xff;
        }
        let attempt = match flaw {
            HelloFlaw::Stale => 0,
            _ => self.attempt,
        };
        if flaw == HelloFlaw::Intact {
            let pending = handshake::Pending { host_signer, key, sender };
            self.outstanding.push((attempt, pending));
        }
        (frame(&sealed), Input::ArkHello { attempt, flaw })
    }

    /// Queues a packet sealed in the server's session.
    fn reply(&mut self, tag: Option<u8>) {
        let session = match self.session.as_mut() {
            Some(session) => session,
            None => return self.junk(b"reply without a session"),
        };
        let message = match tag {
            Some(tag) => payload(tag as u64),
            None => vec![0x07],
        };
        let packet = sealing::seal(&mut session.sender, &message).unwrap();
        let sealed = Input::Sealed { session: session.id, seq: session.seq, tag };
        session.seq += 1;
        let framed = frame(&packet);
        self.last_reply = Some((framed.clone(), sealed));
        self.last_valid = Some(framed[..framed.len() - 1].to_vec());
        self.produce(framed, sealed);
    }

    fn set_broken(&mut self, broken: bool) {
        self.outbox.set_broken(broken);
        self.broken = broken;
    }

    /// Parses everything the client wrote since the last look. Resets carry nothing
    /// to track. Failed output leaves fragments, which mean nothing.
    fn ingest(&mut self) {
        for framed in self.outbox.take_frames() {
            if framed.is_empty() {
                continue;
            }
            let packet = match unframe(&framed) {
                Ok(packet) => packet,
                Err(_) => {
                    assert!(self.torn, "client wrote an undecodable frame");
                    continue;
                }
            };
            if let Ok(hello) = handshake::read_hello(&packet) {
                self.latest_hello = Some(hello);
                continue;
            }
            if self.ack(&packet) {
                continue;
            }
            if let Some(session) = self.session.as_mut() {
                if sealing::open(&mut session.receiver, &packet).is_ok() {
                    continue;
                }
            }
            assert!(self.torn, "client wrote a frame the server cannot interpret");
        }
    }

    /// Opens a client ack against the outstanding ArkHellos.
    fn ack(&mut self, packet: &[u8]) -> bool {
        let identity = self.identity.public_key();
        for i in (0..self.outstanding.len()).rev() {
            let pending = &self.outstanding[i].1;
            let opened =
                handshake::open_ack(&pending.key, &pending.host_signer, packet, &identity);
            if let Ok(receiver) = opened {
                let (id, pending) = self.outstanding.remove(i);
                self.session = Some(MockSession {
                    id,
                    sender: pending.sender,
                    receiver,
                    seq: 0,
                });
                return true;
            }
        }
        false
    }

    /// Predicts whether an output of the client is written. Only a reset is as short
    /// as two bytes.
    fn written(&mut self, reset: bool) -> bool {
        let fires = match self.cut {
            Some(CutPoint::Middle(_)) => !reset,
            Some(_) => true,
            None => false,
        };
        if fires {
            self.cut = None;
            self.torn = true;
            return false;
        }
        !self.broken
    }

    /// Applies the model's transition for input the client reads.
    fn consume(&mut self, input: Input) {
        match self.call {
            Call::Handshake(current) => {
                if let Input::ArkHello { attempt, flaw } = input {
                    if attempt == current {
                        let outcome = match flaw {
                            HelloFlaw::Intact => {
                                if self.written(false) {
                                    self.host_session = Some(current);
                                    self.host_seq = 0;
                                    self.receiving = true;
                                    Ending::Done
                                } else {
                                    Ending::Failed(Kind::Send)
                                }
                            }
                            HelloFlaw::Attest => Ending::Failed(Kind::InvalidAttestation),
                            _ => Ending::Failed(Kind::Handshake),
                        };
                        self.settle(vec![outcome]);
                    }
                }
            }
            Call::Recv => {
                let bound = self.host_session;
                if let (Some(id), Input::Sealed { session, seq, tag }) = (bound, input) {
                    if session == id && seq == self.host_seq {
                        self.host_seq += 1;
                        let message = match tag {
                            Some(tag) => payload(tag as u64),
                            None => vec![0x07],
                        };
                        self.settle(vec![Ending::Message(message)]);
                        return;
                    }
                }
                self.host_session = None;
                self.receiving = false;
                self.settle(match input {
                    Input::Dropped => vec![Ending::Failed(Kind::SessionReset)],
                    Input::Undecodable => vec![Ending::Failed(Kind::FrameDecoding)],
                    Input::Oversized => vec![Ending::Failed(Kind::FrameTooLarge)],
                    Input::Mangled => vec![
                        Ending::Failed(Kind::FrameDecoding),
                        Ending::Failed(Kind::Encryption),
                    ],
                    _ => vec![Ending::Failed(Kind::Encryption)],
                });
            }
            Call::Idle => panic!("client read outside a call"),
        }
    }

    /// Applies a read failing, which ends the call in progress with the error.
    fn interrupt(&mut self, kind: Kind) {
        if self.call == Call::Recv {
            self.host_session = None;
            self.receiving = false;
        }
        self.settle(vec![Ending::Failed(kind)]);
    }

    fn settle(&mut self, outcomes: Vec<Ending>) {
        assert!(self.expect.is_none(), "call settled twice");
        self.expect = Some(outcomes);
    }

    /// Checks a finished call against the prediction.
    fn finish(&mut self, actual: Ending) {
        let expected = self.expect.take().expect("call returned before the model settled it");
        assert!(expected.contains(&actual), "model expected {expected:?}, client returned {actual:?}");
        self.call = Call::Idle;
        self.ingest();
    }

    /// Moves the script forward to the next call, executing the steps before it. Read
    /// faults outside a read mean nothing.
    fn next_call(&mut self) -> Option<ServerStep> {
        loop {
            let step = self.steps.pop_front()?;
            if step.is_call() {
                return Some(step);
            }
            if !step.is_fault() {
                self.execute(step);
            }
        }
    }

    /// Serves a read of the client, pulling the script forward.
    fn read(&mut self, buf: &mut [u8]) -> Result<usize, ErrorKind> {
        if self.bytes.is_empty() {
            assert!(self.expect.is_none(), "client read on past its result");
            while self.queue.is_empty() {
                let call = match self.steps.front() {
                    None => {
                        self.interrupt(Kind::Terminated);
                        return Ok(0);
                    }
                    Some(step) => step.is_call(),
                };
                if call {
                    self.interrupt(Kind::Recv);
                    return Err(ErrorKind::WouldBlock);
                }
                match self.steps.pop_front().unwrap() {
                    ServerStep::Yield => {
                        self.interrupt(Kind::Recv);
                        return Err(ErrorKind::WouldBlock);
                    }
                    ServerStep::Interrupt => return Err(ErrorKind::Interrupted),
                    ServerStep::ReadTimeout => return Err(ErrorKind::TimedOut),
                    step => self.execute(step),
                }
            }
            self.hand_over();
            // Batch later input into this read, up to what settles the call
            while self.batch > 1 && self.expect.is_none() {
                if self.queue.is_empty() {
                    match self.steps.front() {
                        Some(step) if !step.is_call() && !step.is_fault() => {
                            let step = self.steps.pop_front().unwrap();
                            self.execute(step);
                        }
                        _ => break,
                    }
                }
                if !self.queue.is_empty() {
                    self.hand_over();
                    self.batch -= 1;
                }
            }
            self.batch = 0;
        }
        let mut n = buf.len().min(self.bytes.len() - self.offset);
        if self.chunk > 0 {
            n = n.min(self.chunk);
        }
        buf[..n].copy_from_slice(&self.bytes[self.offset..self.offset + n]);
        self.offset += n;
        if self.offset == self.bytes.len() {
            self.bytes.clear();
            self.offset = 0;
        }
        self.summary.reads += 1;
        Ok(n)
    }

    /// Moves one piece of queued input in front of the client.
    fn hand_over(&mut self) {
        let (bytes, input) = self.queue.pop_front().unwrap();
        self.bytes.extend(bytes);
        if let Some(input) = input {
            self.consume(input);
        }
    }
}

/// The client under test with its outgoing half and its stream.
struct ClientSide {
    client: Client,
    outbound: Outbound,
    shutdown: Shutdown,
    outbox: Outbox,
    buf: Vec<u8>,
}

impl ClientSide {
    fn new(outbox: Outbox) -> ClientSide {
        ClientSide {
            client: Client::new(),
            outbound: Outbound::new(Side::Client),
            shutdown: Shutdown::new(),
            outbox,
            buf: vec![0; MAX_FRAME_SIZE + 1],
        }
    }

    /// Feeds the client with a read.
    fn read(&mut self, server: &mut MockServer) -> Result<(), Error> {
        match read_input(&mut self.shutdown, &mut self.buf, |buf| server.read(buf)) {
            Ok(0) => {
                self.client.interrupt(&mut self.outbound);
                Err(Error::Terminated)
            }
            Ok(n) => {
                self.client.feed(&self.buf[..n]);
                Ok(())
            }
            Err(kind) => {
                self.client.interrupt(&mut self.outbound);
                Err(Error::RecvFailed(kind))
            }
        }
    }

    /// Writes an output of the handshake.
    fn write(&mut self, bytes: &[u8]) -> Result<(), Error> {
        let outcome = write_output(&mut self.shutdown, &self.outbox, bytes);
        self.client.sent(&mut self.outbound, outcome)
    }

    /// Runs a handshake.
    fn handshake(&mut self, server: &mut MockServer, identity: &xdsa::PublicKey) -> Result<(), Error> {
        loop {
            match self.client.handshake(&mut self.outbound, identity, 0) {
                Progress::Again => {}
                Progress::Read(_) => self.read(server)?,
                Progress::Write(bytes, _) => self.write(&bytes)?,
                Progress::Ack(bytes, _, attestation) => {
                    assert_eq!(attestation.as_bytes(), server.attestation.as_bytes());
                    return self.write(&bytes);
                }
                Progress::Failed(error) => return Err(error),
            }
        }
    }

    /// Receives a message.
    fn recv(&mut self, server: &mut MockServer) -> Result<Vec<u8>, Error> {
        loop {
            match self.client.recv(&mut self.outbound) {
                Some(result) => return result,
                None => self.read(server)?,
            }
        }
    }

    /// Sends through a handle of the client's.
    fn send(&mut self, sender: Option<&Sender>, message: &[u8]) -> Result<(), Error> {
        send_through(sender, &mut self.outbound, &mut self.shutdown, &self.outbox, message)
    }
}

/// Maps a client error onto the kind the model predicts.
fn kind(error: Error) -> Kind {
    match error {
        Error::FrameDecodingFailed(_) => Kind::FrameDecoding,
        Error::FrameTooLarge(size) => {
            assert_eq!(size, MAX_FRAME_SIZE + 1);
            Kind::FrameTooLarge
        }
        Error::SendFailed(_) => Kind::Send,
        Error::RecvFailed(_) => Kind::Recv,
        Error::Terminated => Kind::Terminated,
        Error::SessionReset => Kind::SessionReset,
        Error::InvalidAttestation => Kind::InvalidAttestation,
        Error::HandshakeFailed(_) => Kind::Handshake,
        Error::EncryptionFailed(_) => Kind::Encryption,
        error => panic!("unexpected error from the client: {error:?}"),
    }
}

/// Checks that the client can send exactly when the model says so.
fn check_client(client: &mut ClientSide, sender: Option<&Sender>, established: bool) {
    match client.send(sender, &oversized_message()) {
        Err(Error::PacketTooLarge(_)) => {
            assert!(established, "client has a session the model does not")
        }
        Err(Error::EncryptionFailed(_)) => {
            assert!(!established, "client lacks the session the model has")
        }
        other => panic!("unexpected oversized send result: {other:?}"),
    }
}

/// Sends a tagged request and checks its result against the model.
fn send_request(client: &mut ClientSide, sender: Option<&Sender>, server: &mut MockServer, tag: u8) {
    let established = server.host_session.is_some();
    let expected = if !established {
        Ending::Failed(Kind::Encryption)
    } else if server.written(false) {
        Ending::Done
    } else {
        // A failed send ends the session, which receiving learns of later
        server.host_session = None;
        Ending::Failed(Kind::Send)
    };
    let actual = match client.send(sender, &payload(tag as u64)) {
        Ok(()) => Ending::Done,
        Err(error) => Ending::Failed(kind(error)),
    };
    assert_eq!(actual, expected);
    server.ingest();
}

/// Runs a script against a real client and returns the observed counts. Panics if
/// its results differ from the model.
fn run_server(steps: &[ServerStep]) -> ServerSummary {
    let outbox = Outbox::default();
    let mut server = MockServer::new(steps, outbox.clone());
    let identity = server.identity.public_key();
    let mut client = ClientSide::new(outbox);

    let mut sender: Option<Sender> = None;
    let mut retained: Option<Sender> = None;
    let mut retained_session = None;
    while let Some(call) = server.next_call() {
        match call {
            ServerStep::Handshake => {
                server.host_session = None;
                server.receiving = false;
                server.attempt += 1;
                // The reset and the hello go out before anything is read
                if server.written(true) && server.written(false) {
                    server.call = Call::Handshake(server.attempt);
                } else {
                    server.settle(vec![Ending::Failed(Kind::Send)]);
                }
                let actual = match client.handshake(&mut server, &identity) {
                    Ok(()) => {
                        server.summary.handshakes += 1;
                        sender = Some(client.client.sender(&client.outbound));
                        Ending::Done
                    }
                    Err(error) => {
                        server.summary.failures += 1;
                        Ending::Failed(kind(error))
                    }
                };
                server.finish(actual);
                let established = server.host_session.is_some();
                assert_eq!(client.client.session_id(&client.outbound) != 0, established);
                check_client(&mut client, sender.as_ref(), established);
            }
            ServerStep::Recv => {
                server.call = Call::Recv;
                if !server.receiving {
                    server.settle(vec![Ending::Failed(Kind::Encryption)]);
                }
                let actual = match client.recv(&mut server) {
                    Ok(message) => {
                        server.summary.messages += 1;
                        Ending::Message(message)
                    }
                    Err(error) => {
                        let kind = kind(error);
                        match kind {
                            Kind::SessionReset => server.summary.resets += 1,
                            _ => server.summary.failures += 1,
                        }
                        Ending::Failed(kind)
                    }
                };
                server.finish(actual);
                assert_eq!(client.client.has_receiver(), server.receiving);
            }
            ServerStep::Send(tag) => {
                check_client(&mut client, sender.as_ref(), server.host_session.is_some());
                send_request(&mut client, sender.as_ref(), &mut server, tag);
            }
            ServerStep::SendOversized => {
                check_client(&mut client, sender.as_ref(), server.host_session.is_some());
            }
            ServerStep::Retain => {
                retained = sender;
                retained_session = server.host_session;
            }
            ServerStep::SendRetained(tag) => {
                if retained_session.is_some() && retained_session == server.host_session {
                    send_request(&mut client, retained.as_ref(), &mut server, tag);
                } else {
                    assert!(matches!(
                        client.send(retained.as_ref(), &payload(tag as u64)),
                        Err(Error::EncryptionFailed(_))
                    ));
                }
            }
            _ => unreachable!("only calls reach the driver"),
        }
    }
    server.ingest();
    check_client(&mut client, sender.as_ref(), server.host_session.is_some());
    server.summary.established = server.host_session.is_some();
    server.summary
}

// Tests a successful handshake followed by two request/reply exchanges.
#[test]
fn tests_test_scripted_round_trip() {
    let summary = run_client(&[
        ClientStep::ResetPair,
        ClientStep::Hello,
        ClientStep::Ack,
        ClientStep::Request(1),
        ClientStep::Request(2),
    ]);
    assert_eq!(
        summary,
        ClientSummary {
            state: State::Established,
            dropped: 0,
            fragments: 0,
            handshakes: 1,
            delivered: 2,
            replies: 2,
            reads: 5,
        }
    );
}

// Tests a successful handshake and request/reply exchanges, including several
// requests sent before their replies are read.
#[test]
fn test_scripted_round_trip() {
    let summary = run_server(&[
        ServerStep::Handshake,
        ServerStep::Hello,
        ServerStep::Send(1),
        ServerStep::Reply(1),
        ServerStep::Recv,
        ServerStep::Send(2),
        ServerStep::Send(3),
        ServerStep::Reply(2),
        ServerStep::Reply(3),
        ServerStep::Recv,
        ServerStep::Recv,
    ]);
    assert_eq!(
        summary,
        ServerSummary {
            established: true,
            handshakes: 1,
            messages: 3,
            resets: 0,
            failures: 0,
            reads: 4,
        }
    );
}

// Tests that each connection event supplies a working sender before any request,
// and that disconnect precedes the next connection. A retained sender is refused
// after the peer resets; replacing it with the new sender restores sending.
#[test]
fn tests_test_scripted_retained_sender() {
    let summary = run_client(&[
        ClientStep::Retain,
        ClientStep::SendRetained(0),
        ClientStep::SendOversized,
        ClientStep::Reset,
        ClientStep::Hello,
        ClientStep::Ack,
        ClientStep::Send(1),
        ClientStep::Retain,
        ClientStep::SendRetained(2),
        ClientStep::Request(3),
        ClientStep::Reset,
        ClientStep::Hello,
        ClientStep::Ack,
        ClientStep::SendRetained(4),
        ClientStep::Send(5),
        ClientStep::Retain,
        ClientStep::SendRetained(6),
        ClientStep::Request(7),
    ]);
    assert_eq!(summary.state, State::Established);
    assert_eq!(summary.handshakes, 2);
    assert_eq!(summary.delivered, 2);
    assert_eq!(summary.replies, 6);
    assert_eq!(summary.dropped, 0);
}

// Tests that a retained sender works in its original session, is refused after
// reconnecting, and cannot damage the new session. Replacing the retained slot
// with the new sender makes it usable again; retaining an absent sender is safe.
#[test]
fn test_scripted_retained_sender() {
    let summary = run_server(&[
        ServerStep::Retain,
        ServerStep::SendRetained(0),
        ServerStep::Handshake,
        ServerStep::Hello,
        ServerStep::Retain,
        ServerStep::SendRetained(1),
        ServerStep::Handshake,
        ServerStep::Hello,
        ServerStep::SendRetained(2),
        ServerStep::Send(3),
        ServerStep::Reply(3),
        ServerStep::Recv,
        ServerStep::Retain,
        ServerStep::SendRetained(4),
        ServerStep::Reply(4),
        ServerStep::Recv,
    ]);
    assert!(summary.established);
    assert_eq!(summary.handshakes, 2);
    assert_eq!(summary.messages, 2);
    assert_eq!(summary.failures, 0);
}

// Tests that local disconnection emits an empty frame and invalidates senders
// before returning, without a local disconnect event. Reconnecting the same stream
// supplies a working sender while the retained old sender remains unusable.
#[test]
fn test_scripted_local_disconnect() {
    let summary = run_client(&[
        ClientStep::Reset,
        ClientStep::Hello,
        ClientStep::Ack,
        ClientStep::Request(1),
        ClientStep::Retain,
        ClientStep::Disconnect,
        ClientStep::SendRetained(2),
        ClientStep::Send(3),
        ClientStep::Reset,
        ClientStep::Hello,
        ClientStep::Ack,
        ClientStep::SendRetained(4),
        ClientStep::Send(5),
        ClientStep::Request(6),
    ]);
    assert_eq!(summary.state, State::Established);
    assert_eq!(summary.handshakes, 2);
    assert_eq!(summary.delivered, 2);
    assert_eq!(summary.replies, 3);
    assert_eq!(summary.dropped, 1);
}

// Tests that oversize refusal leaves sending and receiving usable, but a failed
// send through a retained handle ends both. A later handshake creates a fresh
// sender; neither healing nor reconnecting revives the retained one.
#[test]
fn tests_test_scripted_retained_sender_failures() {
    let summary = run_client(&[
        ClientStep::Reset,
        ClientStep::Hello,
        ClientStep::Ack,
        ClientStep::SendOversized,
        ClientStep::Send(1),
        ClientStep::Request(2),
        ClientStep::Retain,
        ClientStep::Break,
        ClientStep::SendRetained(3),
        ClientStep::Heal,
        ClientStep::SendRetained(4),
        ClientStep::Reset,
        ClientStep::Hello,
        ClientStep::Ack,
        ClientStep::SendRetained(5),
        ClientStep::Send(6),
        ClientStep::Request(7),
    ]);
    assert_eq!(summary.state, State::Established);
    assert_eq!(summary.handshakes, 2);
    assert_eq!(summary.delivered, 2);
    assert_eq!(summary.replies, 4);
    assert_eq!(summary.dropped, 1);
}

// Tests that both an unsuccessful reconnect and a failed retained send retire
// the old handle permanently. Healing the stream and establishing another
// session cannot revive it or let its refusal break the new sender.
#[test]
fn test_scripted_retained_sender_failures() {
    let summary = run_server(&[
        ServerStep::Handshake,
        ServerStep::Hello,
        ServerStep::Retain,
        ServerStep::Handshake,
        ServerStep::HelloTampered,
        ServerStep::SendRetained(1),
        ServerStep::Handshake,
        ServerStep::Hello,
        ServerStep::SendRetained(2),
        ServerStep::Send(3),
        ServerStep::Retain,
        ServerStep::Break,
        ServerStep::SendRetained(4),
        ServerStep::Heal,
        ServerStep::SendRetained(5),
        ServerStep::Handshake,
        ServerStep::Hello,
        ServerStep::SendRetained(6),
        ServerStep::Send(7),
        ServerStep::Reply(7),
        ServerStep::Recv,
    ]);
    assert!(summary.established);
    assert_eq!(summary.handshakes, 3);
    assert_eq!(summary.messages, 1);
    assert_eq!(summary.failures, 1);
}

// Tests owner actions encountered while a handshake is reading. They yield to
// the driver, aborting that handshake like other read interruptions. Disconnect
// and send actions remain valid without a session, including on a broken writer.
#[test]
fn test_scripted_actions_during_handshake() {
    let summary = run_client(&[
        ClientStep::Reset,
        ClientStep::Hello,
        ClientStep::Retain,
        ClientStep::Send(1),
        ClientStep::Disconnect,
        ClientStep::Break,
        ClientStep::Disconnect,
        ClientStep::Heal,
        ClientStep::Disconnect,
        ClientStep::Reset,
        ClientStep::Hello,
        ClientStep::Ack,
        ClientStep::Send(2),
    ]);
    assert_eq!(summary.state, State::Established);
    assert_eq!(summary.handshakes, 2);
    assert_eq!(summary.replies, 1);
    assert_eq!(summary.dropped, 3);

    // Actions between the reset's disconnect event and the next receive do
    // not cancel the handshake already scheduled by that reset.
    let summary = run_client(&[
        ClientStep::Reset,
        ClientStep::Hello,
        ClientStep::Ack,
        ClientStep::Retain,
        ClientStep::Reset,
        ClientStep::Disconnect,
        ClientStep::SendRetained(1),
        ClientStep::Hello,
        ClientStep::Ack,
        ClientStep::Send(2),
    ]);
    assert_eq!(summary.state, State::Established);
    assert_eq!(summary.handshakes, 2);
    assert_eq!(summary.replies, 1);
    assert_eq!(summary.dropped, 1);
}

// Tests that a reset starts a handshake in every state without a wire reply.
// It ends any existing session, so later requests using that session are refused.
#[test]
fn tests_test_scripted_reset_restarts() {
    let summary = run_client(&[
        ClientStep::Reset,
        ClientStep::Reset,
        ClientStep::Reset,
        ClientStep::Hello,
        ClientStep::Ack,
    ]);
    assert_eq!(summary.state, State::Established);
    assert_eq!(summary.handshakes, 1);
    assert_eq!(summary.dropped, 0);

    let summary = run_client(&[
        ClientStep::Reset,
        ClientStep::Hello,
        ClientStep::Reset,
        ClientStep::Hello,
        ClientStep::Ack,
    ]);
    assert_eq!(summary.state, State::Established);
    assert_eq!(summary.handshakes, 2);
    assert_eq!(summary.dropped, 0);

    let summary = run_client(&[
        ClientStep::Reset,
        ClientStep::Hello,
        ClientStep::Ack,
        ClientStep::ResetPair,
        ClientStep::Hello,
        ClientStep::Ack,
        ClientStep::Request(1),
    ]);
    assert_eq!(summary.state, State::Established);
    assert_eq!(summary.handshakes, 2);
    assert_eq!(summary.delivered, 1);
    assert_eq!(summary.dropped, 0);

    let summary = run_client(&[
        ClientStep::Reset,
        ClientStep::Hello,
        ClientStep::Ack,
        ClientStep::Reset,
        ClientStep::Request(1),
    ]);
    assert_eq!(summary.state, State::Idle);
    assert_eq!(summary.delivered, 0);
    assert_eq!(summary.dropped, 1);
}

// Tests that handshake frames are rejected in the wrong state. HostHello needs
// a preceding reset, and HostAck needs a pending ArkHello.
#[test]
fn tests_test_scripted_frames_outside_state() {
    let summary = run_client(&[ClientStep::Hello]);
    assert_eq!(summary.state, State::Idle);
    assert_eq!(summary.handshakes, 0);
    assert_eq!(summary.dropped, 1);

    let summary = run_client(&[ClientStep::Reset, ClientStep::Hello, ClientStep::Hello]);
    assert_eq!(summary.state, State::Idle);
    assert_eq!(summary.dropped, 1);

    let summary = run_client(&[ClientStep::Reset, ClientStep::Ack]);
    assert_eq!(summary.state, State::Idle);
    assert_eq!(summary.dropped, 1);

    let summary = run_client(&[ClientStep::Reset, ClientStep::Hello, ClientStep::Request(1)]);
    assert_eq!(summary.state, State::Idle);
    assert_eq!(summary.handshakes, 1);
    assert_eq!(summary.dropped, 1);

    let summary = run_client(&[ClientStep::Reset, ClientStep::Hello, ClientStep::Ack, ClientStep::Hello]);
    assert_eq!(summary.state, State::Idle);
    assert_eq!(summary.dropped, 1);
}

// Tests handshake rejection for each invalid key, authentication field, signature,
// payload, and encapsulation. Each failure emits a session-end signal. Tampered
// requests also end an established session.
#[test]
fn tests_test_scripted_bad_crypto_frames() {
    let summary = run_client(&[ClientStep::Reset, ClientStep::HelloBadKey]);
    assert_eq!(summary.state, State::Idle);
    assert_eq!(summary.handshakes, 0);
    assert_eq!(summary.dropped, 1);

    for step in [
        ClientStep::AckTampered,
        ClientStep::AckBadAuth,
        ClientStep::AckBadSigner,
        ClientStep::AckBadPayload,
        ClientStep::AckBadEncap,
    ] {
        let summary = run_client(&[ClientStep::Reset, ClientStep::Hello, step.clone()]);
        assert_eq!(summary.state, State::Idle, "{step:?}");
        assert_eq!(summary.handshakes, 1, "{step:?}");
        assert_eq!(summary.dropped, 1, "{step:?}");

        // Without a pending ArkHello, the mock sends junk instead of an ack.
        let summary = run_client(&[ClientStep::Reset, step.clone()]);
        assert_eq!(summary.state, State::Idle, "{step:?}");
        assert_eq!(summary.dropped, 1, "{step:?}");
    }

    let summary = run_client(&[
        ClientStep::Reset,
        ClientStep::Hello,
        ClientStep::Ack,
        ClientStep::RequestTampered,
        ClientStep::Request(1),
    ]);
    assert_eq!(summary.state, State::Idle);
    assert_eq!(summary.delivered, 0);
    assert_eq!(summary.dropped, 2);
}

// Tests rejection of replayed HostAcks and requests. Reusing HostHello keys after
// a reset is allowed, but requires a fresh ack for the new server response.
#[test]
fn tests_test_scripted_replays() {
    let summary = run_client(&[ClientStep::Reset, ClientStep::Hello, ClientStep::Ack, ClientStep::AckReplay]);
    assert_eq!(summary.state, State::Idle);
    assert_eq!(summary.dropped, 1);

    let summary = run_client(&[
        ClientStep::Reset,
        ClientStep::Hello,
        ClientStep::Ack,
        ClientStep::Request(1),
        ClientStep::RequestReplay,
    ]);
    assert_eq!(summary.state, State::Idle);
    assert_eq!(summary.delivered, 1);
    assert_eq!(summary.dropped, 1);

    let summary = run_client(&[
        ClientStep::Reset,
        ClientStep::Hello,
        ClientStep::Ack,
        ClientStep::Reset,
        ClientStep::Hello,
        ClientStep::AckReplay,
    ]);
    assert_eq!(summary.state, State::Idle);
    assert_eq!(summary.handshakes, 2);
    assert_eq!(summary.dropped, 1);

    let summary = run_client(&[
        ClientStep::Reset,
        ClientStep::Hello,
        ClientStep::Ack,
        ClientStep::Reset,
        ClientStep::HelloReplay,
        ClientStep::Ack,
        ClientStep::Request(3),
    ]);
    assert_eq!(summary.state, State::Established);
    assert_eq!(summary.handshakes, 2);
    assert_eq!(summary.delivered, 1);
    assert_eq!(summary.dropped, 0);
}

// Tests that transport delivers decrypted bytes without checking protobuf validity
// and leaves the session usable for the next request.
#[test]
fn tests_test_scripted_garbage_keeps_session() {
    let summary = run_client(&[
        ClientStep::Reset,
        ClientStep::Hello,
        ClientStep::Ack,
        ClientStep::Garbage,
        ClientStep::Request(1),
    ]);
    assert_eq!(summary.state, State::Established);
    assert_eq!(summary.delivered, 1);
    assert_eq!(summary.dropped, 0);
}

// Tests that transport delivers decrypted bytes without checking protobuf validity
// and leaves the session usable for the next reply.
#[test]
fn test_scripted_garbage_keeps_session() {
    let summary = run_server(&[
        ServerStep::Handshake,
        ServerStep::Hello,
        ServerStep::Garbage,
        ServerStep::Recv,
        ServerStep::Reply(2),
        ServerStep::Recv,
    ]);
    assert!(summary.established);
    assert_eq!(summary.messages, 2);
    assert_eq!(summary.failures, 0);
}

// Tests that invalid input returns the server to idle and emits an empty frame.
// A fresh handshake restores the session after failure in any state.
#[test]
fn tests_test_scripted_junk_signals_dropped() {
    let junk = || ClientStep::Junk(vec![0xde, 0xad, 0xbe, 0xef]);

    let summary = run_client(&[junk()]);
    assert_eq!(summary.state, State::Idle);
    assert_eq!(summary.dropped, 1);

    let summary = run_client(&[ClientStep::Reset, junk()]);
    assert_eq!(summary.state, State::Idle);
    assert_eq!(summary.dropped, 1);

    let summary = run_client(&[ClientStep::Reset, ClientStep::Hello, junk()]);
    assert_eq!(summary.state, State::Idle);
    assert_eq!(summary.handshakes, 1);
    assert_eq!(summary.dropped, 1);

    let summary = run_client(&[ClientStep::Reset, ClientStep::Hello, ClientStep::Ack, junk()]);
    assert_eq!(summary.state, State::Idle);
    assert_eq!(summary.dropped, 1);

    // Both undecodable COBS and a nonempty frame encoding an empty packet are junk.
    let summary = run_client(&[
        ClientStep::Reset,
        ClientStep::Hello,
        ClientStep::Ack,
        ClientStep::Junk(vec![0xff, 0x01]),
    ]);
    assert_eq!(summary.state, State::Idle);
    assert_eq!(summary.dropped, 1);

    let summary = run_client(&[ClientStep::Reset, ClientStep::Hello, ClientStep::Ack, ClientStep::Junk(vec![])]);
    assert_eq!(summary.state, State::Idle);
    assert_eq!(summary.dropped, 1);

    // A fresh handshake recovers from invalid session or handshake input.
    let summary = run_client(&[
        ClientStep::Reset,
        ClientStep::Hello,
        ClientStep::Ack,
        junk(),
        ClientStep::Reset,
        ClientStep::Hello,
        ClientStep::Ack,
        ClientStep::Request(1),
    ]);
    assert_eq!(summary.state, State::Established);
    assert_eq!(summary.delivered, 1);
    assert_eq!(summary.dropped, 1);

    let summary = run_client(&[
        ClientStep::Reset,
        junk(),
        ClientStep::Reset,
        ClientStep::Hello,
        ClientStep::Ack,
        ClientStep::Request(1),
    ]);
    assert_eq!(summary.state, State::Established);
    assert_eq!(summary.delivered, 1);
    assert_eq!(summary.dropped, 1);
}

// Tests that each request after session loss produces its own empty-frame signal.
// A client with many requests already in flight must drain that signal backlog.
#[test]
fn tests_test_scripted_requests_into_dead_session() {
    let stale = 40;
    let mut steps = vec![
        ClientStep::Reset,
        ClientStep::Hello,
        ClientStep::Ack,
        ClientStep::Junk(vec![0xde, 0xad]),
    ];
    steps.extend((0..stale).map(ClientStep::Request));
    let summary = run_client(&steps);
    assert_eq!(summary.state, State::Idle);
    assert_eq!(summary.delivered, 0);
    assert_eq!(summary.dropped, usize::from(stale) + 1);
}

// Tests that truncated copies of valid frames are junk in every state.
#[test]
fn tests_test_scripted_truncated_frames() {
    for cut in [0u8, 1, 7, 255] {
        let summary = run_client(&[ClientStep::Reset, ClientStep::Hello, ClientStep::Truncated(cut)]);
        assert_eq!(summary.state, State::Idle, "cut {cut}");
        assert_eq!(summary.dropped, 1, "cut {cut}");

        let summary = run_client(&[
            ClientStep::Reset,
            ClientStep::Hello,
            ClientStep::Ack,
            ClientStep::Request(1),
            ClientStep::Truncated(cut),
        ]);
        assert_eq!(summary.state, State::Idle, "cut {cut}");
        assert_eq!(summary.dropped, 1, "cut {cut}");
    }
}

// Tests input after an unterminated frame. A lone delimiter completes a partial
// hello; other bytes merge into invalid input. The first zero of a reset pair
// completes the old frame, and the second starts the new handshake.
#[test]
fn tests_test_scripted_partial_frames() {
    let summary = run_client(&[ClientStep::Partial, ClientStep::Reset, ClientStep::Hello]);
    assert_eq!(summary.state, State::Idle);
    assert_eq!(summary.handshakes, 0);
    assert_eq!(summary.dropped, 2);

    let summary = run_client(&[ClientStep::Reset, ClientStep::Partial, ClientStep::Reset, ClientStep::Ack]);
    assert_eq!(summary.state, State::Established);
    assert_eq!(summary.handshakes, 1);
    assert_eq!(summary.dropped, 0);

    let summary = run_client(&[
        ClientStep::Reset,
        ClientStep::Partial,
        ClientStep::ResetPair,
        ClientStep::Hello,
        ClientStep::Ack,
    ]);
    assert_eq!(summary.state, State::Established);
    assert_eq!(summary.handshakes, 2);
    assert_eq!(summary.dropped, 0);

    let summary = run_client(&[ClientStep::Reset, ClientStep::Partial, ClientStep::Partial, ClientStep::Reset]);
    assert_eq!(summary.state, State::Idle);
    assert_eq!(summary.dropped, 1);

    let summary = run_client(&[ClientStep::Partial, ClientStep::ResetPair, ClientStep::Hello, ClientStep::Ack]);
    assert_eq!(summary.state, State::Established);
    assert_eq!(summary.dropped, 1);

    let summary = run_client(&[
        ClientStep::Reset,
        ClientStep::Hello,
        ClientStep::Ack,
        ClientStep::Partial,
        ClientStep::Request(1),
    ]);
    assert_eq!(summary.state, State::Idle);
    assert_eq!(summary.delivered, 0);
    assert_eq!(summary.dropped, 1);
}

// Tests that a WouldBlock read aborts an unfinished handshake without a wire
// signal, while an established session remains usable.
#[test]
fn tests_test_scripted_yield() {
    let summary = run_client(&[ClientStep::Yield]);
    assert_eq!(summary.state, State::Idle);
    assert_eq!(summary.replies, 0);

    let summary = run_client(&[ClientStep::Reset, ClientStep::Yield, ClientStep::Hello]);
    assert_eq!(summary.state, State::Idle);
    assert_eq!(summary.handshakes, 0);
    assert_eq!(summary.dropped, 1);

    let summary = run_client(&[ClientStep::Reset, ClientStep::Hello, ClientStep::Yield, ClientStep::Ack]);
    assert_eq!(summary.state, State::Idle);
    assert_eq!(summary.handshakes, 1);
    assert_eq!(summary.dropped, 1);

    let summary = run_client(&[
        ClientStep::Reset,
        ClientStep::Hello,
        ClientStep::Ack,
        ClientStep::Yield,
        ClientStep::Request(1),
    ]);
    assert_eq!(summary.state, State::Established);
    assert_eq!(summary.delivered, 1);
    assert_eq!(summary.replies, 2);
}

// Tests persistent server output failure. A failed reply ends the session and
// a failed ArkHello aborts the handshake. Failure signals are lost too. Once
// writes recover, the next output starts with a recovery delimiter.
#[test]
fn tests_test_scripted_broken_transport() {
    let summary = run_client(&[
        ClientStep::Reset,
        ClientStep::Hello,
        ClientStep::Ack,
        ClientStep::Request(1),
        ClientStep::Break,
        ClientStep::Request(2),
        ClientStep::Request(3),
        ClientStep::Heal,
        ClientStep::Reset,
        ClientStep::Hello,
        ClientStep::Ack,
        ClientStep::Request(4),
    ]);
    assert_eq!(summary.state, State::Established);
    assert_eq!(summary.delivered, 3);
    assert_eq!(summary.replies, 2);
    assert_eq!(summary.dropped, 1);

    let summary = run_client(&[
        ClientStep::Reset,
        ClientStep::Break,
        ClientStep::Hello,
        ClientStep::Heal,
        ClientStep::Ack,
        ClientStep::Reset,
        ClientStep::Hello,
        ClientStep::Ack,
    ]);
    assert_eq!(summary.state, State::Established);
    assert_eq!(summary.handshakes, 1);
    assert_eq!(summary.dropped, 2);

    let summary = run_client(&[
        ClientStep::Reset,
        ClientStep::Hello,
        ClientStep::Ack,
        ClientStep::Break,
        ClientStep::Yield,
        ClientStep::Heal,
        ClientStep::Request(1),
    ]);
    assert_eq!(summary.state, State::Idle);
    assert_eq!(summary.delivered, 0);
    assert_eq!(summary.replies, 0);
    assert_eq!(summary.dropped, 2);
}

// Tests persistent client output failure during a send, reset, or HostAck.
// Once writes recover, a fresh handshake restores the session.
#[test]
fn test_scripted_broken_transport() {
    let summary = run_server(&[
        ServerStep::Handshake,
        ServerStep::Hello,
        ServerStep::Break,
        ServerStep::Send(1),
        ServerStep::Send(2),
        ServerStep::Handshake,
        ServerStep::Heal,
        ServerStep::Handshake,
        ServerStep::Hello,
        ServerStep::Send(3),
    ]);
    assert!(summary.established);
    assert_eq!(summary.handshakes, 2);
    assert_eq!(summary.failures, 1);

    let summary = run_server(&[
        ServerStep::Handshake,
        ServerStep::Break,
        ServerStep::Hello,
        ServerStep::Heal,
        ServerStep::Handshake,
        ServerStep::Hello,
    ]);
    assert!(summary.established);
    assert_eq!(summary.handshakes, 1);
    assert_eq!(summary.failures, 1);
}

// Tests expired read polls while idle, during both handshake phases, and in an
// established session. Polling timeouts leave every phase intact and produce no
// notification or extra session transition.
#[test]
fn tests_test_scripted_read_timeouts() {
    let summary = run_client(&[
        ClientStep::ReadTimeout,
        ClientStep::Reset,
        ClientStep::ReadTimeout,
        ClientStep::Hello,
        ClientStep::ReadTimeout,
        ClientStep::Ack,
        ClientStep::ReadTimeout,
        ClientStep::Request(1),
    ]);
    assert_eq!(summary.state, State::Established);
    assert_eq!(summary.handshakes, 1);
    assert_eq!(summary.delivered, 1);
    assert_eq!(summary.replies, 1);
    assert_eq!(summary.dropped, 0);
}

// Tests that early adapter timeouts are retried during the handshake and an
// established receive, without invalidating a retained sender or either crypto
// sequence. Only actual input completes the receive.
#[test]
fn test_scripted_read_timeouts() {
    let summary = run_server(&[
        ServerStep::Handshake,
        ServerStep::ReadTimeout,
        ServerStep::Hello,
        ServerStep::Retain,
        ServerStep::SendRetained(1),
        ServerStep::Recv,
        ServerStep::ReadTimeout,
        ServerStep::ReadTimeout,
        ServerStep::Reply(1),
        ServerStep::SendRetained(2),
    ]);
    assert!(summary.established);
    assert_eq!(summary.handshakes, 1);
    assert_eq!(summary.messages, 1);
    assert_eq!(summary.failures, 0);
}

// Tests an oversized frame arriving one byte at a time, ending the session and
// refusing its retained sender before a fresh handshake recovers. Advancing the
// mock input must not copy the unread multi-megabyte frame for every byte.
#[test]
fn tests_test_scripted_bytewise_oversized_frame() {
    let summary = run_client(&[
        ClientStep::Chunk(1),
        ClientStep::Reset,
        ClientStep::Hello,
        ClientStep::Ack,
        ClientStep::Retain,
        ClientStep::Oversized,
        ClientStep::SendRetained(1),
        ClientStep::Reset,
        ClientStep::Hello,
        ClientStep::Ack,
        ClientStep::Request(2),
    ]);
    assert_eq!(summary.state, State::Established);
    assert_eq!(summary.handshakes, 2);
    assert_eq!(summary.delivered, 1);
    assert_eq!(summary.dropped, 1);
    assert!(summary.reads > MAX_FRAME_SIZE);
}

// Tests an oversized stale frame arriving one byte per read after a partial
// hello, followed by a successful handshake. The driver and vector replay must
// advance through these chunks without copying the unread frame on every byte.
#[test]
fn test_scripted_bytewise_oversized_frame() {
    let summary = run_server(&[
        ServerStep::Chunk(1),
        ServerStep::Handshake,
        ServerStep::Batch(3),
        ServerStep::Partial,
        ServerStep::Oversized,
        ServerStep::Hello,
    ]);
    assert!(summary.established);
    assert_eq!(summary.handshakes, 1);
    assert_eq!(summary.failures, 0);
    assert!(summary.reads > MAX_FRAME_SIZE);
}

// Tests ArkHello write and flush timeouts surfacing from receive without a new
// notification budget. The failed attempt leaves the stream reusable, and the
// next handshake resynchronizes whatever prefix reached the client.
#[test]
fn tests_test_scripted_handshake_timeouts() {
    for point in [
        CutPoint::Start,
        CutPoint::Middle(7),
        CutPoint::Delimiter,
        CutPoint::Flush,
    ] {
        let summary = run_client(&[
            ClientStep::Reset,
            ClientStep::Timeout(point),
            ClientStep::Hello,
            ClientStep::Reset,
            ClientStep::Hello,
            ClientStep::Ack,
            ClientStep::Request(1),
        ]);
        assert_eq!(summary.state, State::Established, "{point:?}");
        assert_eq!(summary.delivered, 1, "{point:?}");
        assert_eq!(summary.replies, 1, "{point:?}");
        assert_eq!(
            summary.dropped,
            usize::from(matches!(point, CutPoint::Start | CutPoint::Flush)),
            "{point:?}"
        );
    }
}

// Tests write and flush timeouts during the concurrently written handshake
// prefix. The synthetic reader waits for that prefix and must be cancelled when
// output fails; a subsequent handshake reuses the same stream successfully.
#[test]
fn test_scripted_handshake_timeouts() {
    for point in [
        CutPoint::Start,
        CutPoint::Middle(7),
        CutPoint::Delimiter,
        CutPoint::Flush,
    ] {
        let summary = run_server(&[
            ServerStep::Timeout(point),
            ServerStep::Handshake,
            ServerStep::Handshake,
            ServerStep::Hello,
            ServerStep::Send(1),
            ServerStep::Recv,
            ServerStep::Reply(1),
        ]);
        assert!(summary.established, "{point:?}");
        assert_eq!(summary.handshakes, 1, "{point:?}");
        assert_eq!(summary.messages, 1, "{point:?}");
        assert_eq!(summary.failures, 1, "{point:?}");
    }
}

// Tests that an expired send does not start a fresh notification write, and
// repeated use of its retained sender emits nothing. A later reset allows a new
// handshake; only that handshake's resync delimiter terminates any old prefix.
#[test]
fn tests_test_scripted_send_timeouts() {
    for point in [
        CutPoint::Start,
        CutPoint::Middle(7),
        CutPoint::Delimiter,
        CutPoint::Flush,
    ] {
        let summary = run_client(&[
            ClientStep::Reset,
            ClientStep::Hello,
            ClientStep::Ack,
            ClientStep::Retain,
            ClientStep::Timeout(point),
            ClientStep::Send(1),
            ClientStep::SendRetained(2),
            ClientStep::SendRetained(3),
            ClientStep::Reset,
            ClientStep::Hello,
            ClientStep::Ack,
            ClientStep::Request(4),
        ]);
        assert_eq!(summary.state, State::Established, "{point:?}");
        assert_eq!(summary.delivered, 1, "{point:?}");
        assert_eq!(
            summary.dropped,
            usize::from(matches!(point, CutPoint::Start | CutPoint::Flush)),
            "{point:?}"
        );
        assert_eq!(
            summary.replies,
            1 + usize::from(matches!(point, CutPoint::Delimiter | CutPoint::Flush)),
            "{point:?}"
        );
    }
}

// Tests that a send timeout ends its session and invalidates retained senders.
// Reconnecting completes any interrupted frame and supplies a new sender. The old
// handle stays unusable and cannot affect the replacement session's exchange.
#[test]
fn test_scripted_send_timeouts() {
    for point in [
        CutPoint::Start,
        CutPoint::Middle(7),
        CutPoint::Delimiter,
        CutPoint::Flush,
    ] {
        let summary = run_server(&[
            ServerStep::Handshake,
            ServerStep::Hello,
            ServerStep::Retain,
            ServerStep::Timeout(point),
            ServerStep::Send(1),
            ServerStep::SendRetained(2),
            ServerStep::Handshake,
            ServerStep::Hello,
            ServerStep::SendRetained(3),
            ServerStep::Send(4),
            ServerStep::Recv,
            ServerStep::Reply(4),
        ]);
        assert!(summary.established, "{point:?}");
        assert_eq!(summary.handshakes, 2, "{point:?}");
        assert_eq!(summary.messages, 1, "{point:?}");
        assert_eq!(summary.failures, 0, "{point:?}");
    }
}

// Tests cutting a combined recovery delimiter and ArkHello after an earlier
// timeout. Offset zero accepts only recovery; positive offsets leave a fragment.
// The cut must fire even when ordinary writes are also configured to fail.
#[test]
fn test_scripted_recovery_prefix_cuts() {
    for offset in [0, 1, u16::MAX] {
        for broken in [false, true] {
            let summary = run_client(&[
                ClientStep::Reset,
                ClientStep::Hello,
                ClientStep::Ack,
                ClientStep::Timeout(CutPoint::Start),
                ClientStep::Send(1),
                ClientStep::Cut {
                    point: CutPoint::Middle(offset),
                    then_broken: broken,
                },
                ClientStep::Reset,
                ClientStep::Hello,
                ClientStep::Heal,
                ClientStep::Reset,
                ClientStep::Hello,
                ClientStep::Ack,
                ClientStep::Request(2),
            ]);
            assert_eq!(
                summary.state,
                State::Established,
                "offset {offset}, broken {broken}"
            );
            assert_eq!(summary.handshakes, 2, "offset {offset}, broken {broken}");
            assert_eq!(summary.delivered, 1, "offset {offset}, broken {broken}");
            assert_eq!(
                summary.fragments,
                usize::from(offset != 0),
                "offset {offset}, broken {broken}"
            );
            assert_eq!(
                summary.dropped,
                1 + usize::from(offset == 0) + usize::from(!broken),
                "offset {offset}, broken {broken}"
            );
        }
    }
}

// Tests cuts that apply to a recovery delimiter and session-end signal
// offered together. Delimiter accepts only recovery; Flush accepts both zeros
// before failing. The next handshake recovers the same stream in either case.
#[test]
fn test_scripted_recovery_signal_cuts() {
    for point in [CutPoint::Delimiter, CutPoint::Flush] {
        let summary = run_client(&[
            ClientStep::Reset,
            ClientStep::Hello,
            ClientStep::Ack,
            ClientStep::Timeout(CutPoint::Start),
            ClientStep::Send(1),
            ClientStep::Cut {
                point,
                then_broken: false,
            },
            ClientStep::Junk(vec![0xde, 0xad]),
            ClientStep::Reset,
            ClientStep::Hello,
            ClientStep::Ack,
            ClientStep::Request(2),
        ]);
        assert_eq!(summary.state, State::Established, "{point:?}");
        assert_eq!(summary.handshakes, 2, "{point:?}");
        assert_eq!(summary.delivered, 1, "{point:?}");
        assert_eq!(
            summary.dropped,
            2 + usize::from(point == CutPoint::Flush),
            "{point:?}"
        );
    }
}

// Tests reply failures at each output boundary. The recovery delimiter before
// the failure signal terminates any partial body. A complete body becomes a
// valid reply; no pending body means the delimiter creates an extra empty frame.
#[test]
fn test_scripted_cut_replies() {
    /// Expected wire output after a reply fails at this boundary.
    struct TestCase {
        point: CutPoint,
        fragments: usize,
        replies: usize,
        dropped: usize,
    }
    let tests = [
        TestCase {
            point: CutPoint::Middle(7),
            fragments: 1,
            replies: 0,
            dropped: 1,
        },
        TestCase {
            point: CutPoint::Delimiter,
            fragments: 0,
            replies: 1,
            dropped: 1,
        },
        TestCase {
            point: CutPoint::Start,
            fragments: 0,
            replies: 0,
            dropped: 2,
        },
        TestCase {
            point: CutPoint::Flush,
            fragments: 0,
            replies: 1,
            dropped: 2,
        },
    ];
    for (i, tt) in tests.into_iter().enumerate() {
        let summary = run_client(&[
            ClientStep::Reset,
            ClientStep::Hello,
            ClientStep::Ack,
            ClientStep::Cut {
                point: tt.point,
                then_broken: false,
            },
            ClientStep::Request(1),
        ]);
        assert_eq!(summary.state, State::Idle, "test {i}");
        assert_eq!(summary.delivered, 1, "test {i}");
        assert_eq!(summary.fragments, tt.fragments, "test {i}");
        assert_eq!(summary.replies, tt.replies, "test {i}");
        assert_eq!(summary.dropped, tt.dropped, "test {i}");
    }
}

// Tests a partial reply whose failure signal is also lost. Its bytes remain
// pending until writes recover. The next ArkHello's recovery delimiter must
// terminate those bytes before the new response begins.
#[test]
fn test_scripted_cut_then_broken() {
    /// Expected output after a cut reply and a later successful reconnect.
    struct TestCase {
        point: CutPoint,
        fragments: usize,
        replies: usize,
        dropped: usize,
    }
    let tests = [
        TestCase {
            point: CutPoint::Middle(7),
            fragments: 1,
            replies: 1,
            dropped: 0,
        },
        TestCase {
            point: CutPoint::Delimiter,
            fragments: 0,
            replies: 2,
            dropped: 0,
        },
        TestCase {
            point: CutPoint::Start,
            fragments: 0,
            replies: 1,
            dropped: 1,
        },
        TestCase {
            point: CutPoint::Flush,
            fragments: 0,
            replies: 2,
            dropped: 1,
        },
    ];
    for (i, tt) in tests.into_iter().enumerate() {
        let summary = run_client(&[
            ClientStep::Reset,
            ClientStep::Hello,
            ClientStep::Ack,
            ClientStep::Cut {
                point: tt.point,
                then_broken: true,
            },
            ClientStep::Request(1),
            ClientStep::Heal,
            ClientStep::Reset,
            ClientStep::Hello,
            ClientStep::Ack,
            ClientStep::Request(2),
        ]);
        assert_eq!(summary.state, State::Established, "test {i}");
        assert_eq!(summary.handshakes, 2, "test {i}");
        assert_eq!(summary.delivered, 2, "test {i}");
        assert_eq!(summary.fragments, tt.fragments, "test {i}");
        assert_eq!(summary.replies, tt.replies, "test {i}");
        assert_eq!(summary.dropped, tt.dropped, "test {i}");
    }
}

// Tests failed ArkHello output. The recovery delimiter before the failure signal
// completes any pending body. Even if that produces a valid ArkHello, the server
// has already abandoned its handshake and rejects the ack. A fresh reset recovers.
#[test]
fn test_scripted_cut_handshakes() {
    /// Expected output after ArkHello fails and the client attempts an ack.
    struct TestCase {
        point: CutPoint,
        handshakes: usize,
        fragments: usize,
        dropped: usize,
    }
    let tests = [
        TestCase {
            point: CutPoint::Middle(3),
            handshakes: 0,
            fragments: 1,
            dropped: 2,
        },
        TestCase {
            point: CutPoint::Delimiter,
            handshakes: 1,
            fragments: 0,
            dropped: 2,
        },
        TestCase {
            point: CutPoint::Start,
            handshakes: 0,
            fragments: 0,
            dropped: 3,
        },
        TestCase {
            point: CutPoint::Flush,
            handshakes: 1,
            fragments: 0,
            dropped: 3,
        },
    ];
    for (i, tt) in tests.into_iter().enumerate() {
        let cut = ClientStep::Cut {
            point: tt.point,
            then_broken: false,
        };
        let summary = run_client(&[ClientStep::Reset, cut.clone(), ClientStep::Hello, ClientStep::Ack]);
        assert_eq!(summary.state, State::Idle, "test {i}");
        assert_eq!(summary.handshakes, tt.handshakes, "test {i}");
        assert_eq!(summary.fragments, tt.fragments, "test {i}");
        assert_eq!(summary.dropped, tt.dropped, "test {i}");

        let summary = run_client(&[
            ClientStep::Reset,
            cut,
            ClientStep::Hello,
            ClientStep::Reset,
            ClientStep::Hello,
            ClientStep::Ack,
            ClientStep::Request(1),
        ]);
        assert_eq!(summary.state, State::Established, "test {i}");
        assert_eq!(summary.handshakes, tt.handshakes + 1, "test {i}");
        assert_eq!(summary.delivered, 1, "test {i}");
    }
}

// Tests that body cuts skip a lone signal delimiter and stay armed for the next
// frame. A cut at Start rejects the signal itself, requiring a recovery delimiter
// before the next output.
#[test]
fn test_scripted_cut_signals() {
    /// Expected output when a body cut skips a signal and reaches ArkHello.
    struct TestCase {
        point: CutPoint,
        handshakes: usize,
        fragments: usize,
        dropped: usize,
    }
    let tests = [
        TestCase {
            point: CutPoint::Middle(1),
            handshakes: 1,
            fragments: 1,
            dropped: 2,
        },
        TestCase {
            point: CutPoint::Delimiter,
            handshakes: 2,
            fragments: 0,
            dropped: 2,
        },
        TestCase {
            point: CutPoint::Flush,
            handshakes: 2,
            fragments: 0,
            dropped: 3,
        },
    ];
    for (i, tt) in tests.into_iter().enumerate() {
        let summary = run_client(&[
            ClientStep::Reset,
            ClientStep::Hello,
            ClientStep::Ack,
            ClientStep::Cut {
                point: tt.point,
                then_broken: false,
            },
            ClientStep::Junk(vec![1]),
            ClientStep::Reset,
            ClientStep::Hello,
        ]);
        assert_eq!(summary.state, State::Idle, "test {i}");
        assert_eq!(summary.handshakes, tt.handshakes, "test {i}");
        assert_eq!(summary.fragments, tt.fragments, "test {i}");
        assert_eq!(summary.dropped, tt.dropped, "test {i}");
    }

    let summary = run_client(&[
        ClientStep::Reset,
        ClientStep::Hello,
        ClientStep::Ack,
        ClientStep::Cut {
            point: CutPoint::Start,
            then_broken: false,
        },
        ClientStep::Junk(vec![1]),
        ClientStep::Reset,
        ClientStep::Hello,
        ClientStep::Ack,
    ]);
    assert_eq!(summary.state, State::Established);
    assert_eq!(summary.handshakes, 2);
    assert_eq!(summary.dropped, 1);
}

// Tests frame assembly across reads as small as one byte, including a partial
// hello whose delimiter arrives in a later step.
#[test]
fn tests_test_scripted_chunked_reads() {
    for chunk in [1u8, 7, 254, 255] {
        let summary = run_client(&[
            ClientStep::Chunk(chunk),
            ClientStep::Reset,
            ClientStep::Hello,
            ClientStep::Ack,
            ClientStep::Request(1),
            ClientStep::Junk(vec![1; 300]),
            ClientStep::Reset,
            ClientStep::Hello,
            ClientStep::Ack,
            ClientStep::Request(2),
        ]);
        assert_eq!(summary.state, State::Established, "chunk {chunk}");
        assert_eq!(summary.delivered, 2, "chunk {chunk}");
        assert_eq!(summary.dropped, 1, "chunk {chunk}");

        let summary = run_client(&[
            ClientStep::Chunk(chunk),
            ClientStep::Reset,
            ClientStep::Partial,
            ClientStep::Reset,
            ClientStep::Ack,
        ]);
        assert_eq!(summary.state, State::Established, "chunk {chunk}");
        assert_eq!(summary.handshakes, 1, "chunk {chunk}");
    }
}

// Tests frame assembly across reads as small as one byte.
#[test]
fn test_scripted_chunked_reads() {
    for chunk in [1u8, 7, 254, 255] {
        let summary = run_server(&[
            ServerStep::Chunk(chunk),
            ServerStep::Handshake,
            ServerStep::Hello,
            ServerStep::Send(1),
            ServerStep::Reply(1),
            ServerStep::Recv,
            ServerStep::Junk(vec![1; 300]),
            ServerStep::Recv,
            ServerStep::Handshake,
            ServerStep::Hello,
        ]);
        assert!(summary.established, "chunk {chunk}");
        assert_eq!(summary.messages, 1, "chunk {chunk}");
        assert_eq!(summary.handshakes, 2, "chunk {chunk}");
    }
}

// Tests several frames arriving in one read, including a partial hello completed
// within the batch. The mock ends a batch at a receive event so the driver can
// handle each request or session transition before the model advances again.
#[test]
fn tests_test_scripted_batched_reads() {
    let summary = run_client(&[
        ClientStep::Batch(3),
        ClientStep::Reset,
        ClientStep::Reset,
        ClientStep::Hello,
        ClientStep::Ack,
        ClientStep::Request(1),
    ]);
    assert_eq!(summary.state, State::Established);
    assert_eq!(summary.handshakes, 1);
    assert_eq!(summary.delivered, 1);
    assert_eq!(summary.reads, 3);

    let summary = run_client(&[
        ClientStep::Reset,
        ClientStep::Hello,
        ClientStep::Ack,
        ClientStep::Batch(3),
        ClientStep::Junk(vec![1]),
        ClientStep::Junk(vec![2]),
        ClientStep::Junk(vec![3]),
    ]);
    // The first invalid frame ends the session and this batch. The next two
    // arrive in separate reads after the driver handles Disconnected.
    assert_eq!(summary.state, State::Idle);
    assert_eq!(summary.dropped, 3);
    assert_eq!(summary.reads, 6);

    let summary = run_client(&[
        ClientStep::Reset,
        ClientStep::Hello,
        ClientStep::Ack,
        ClientStep::Batch(3),
        ClientStep::Request(1),
        ClientStep::Request(2),
        ClientStep::Request(3),
    ]);
    assert_eq!(summary.state, State::Established);
    assert_eq!(summary.delivered, 3);
    assert_eq!(summary.reads, 6);

    let summary = run_client(&[
        ClientStep::Reset,
        ClientStep::Batch(2),
        ClientStep::Partial,
        ClientStep::Reset,
        ClientStep::Ack,
    ]);
    assert_eq!(summary.state, State::Established);
    assert_eq!(summary.handshakes, 1);
    assert_eq!(summary.reads, 3);

    for chunk in [1u8, 7] {
        let summary = run_client(&[
            ClientStep::Chunk(chunk),
            ClientStep::Batch(3),
            ClientStep::Reset,
            ClientStep::Reset,
            ClientStep::Hello,
            ClientStep::Ack,
            ClientStep::Request(1),
        ]);
        assert_eq!(summary.state, State::Established, "chunk {chunk}");
        assert_eq!(summary.delivered, 1, "chunk {chunk}");
    }
}

// Tests several frames arriving in one read. The mock ends each batch at the
// frame that determines the call's result, then resumes for the next call.
#[test]
fn test_scripted_batched_reads() {
    let summary = run_server(&[
        ServerStep::Handshake,
        ServerStep::Batch(3),
        ServerStep::Dropped,
        ServerStep::Junk(vec![1]),
        ServerStep::Hello,
    ]);
    assert!(summary.established);
    assert_eq!(summary.reads, 1);

    let summary = run_server(&[
        ServerStep::Handshake,
        ServerStep::Batch(2),
        ServerStep::Undecodable,
        ServerStep::Hello,
    ]);
    assert!(summary.established);
    assert_eq!(summary.reads, 1);

    let summary = run_server(&[
        ServerStep::Handshake,
        ServerStep::Hello,
        ServerStep::Send(1),
        ServerStep::Send(2),
        ServerStep::Batch(2),
        ServerStep::Reply(1),
        ServerStep::Reply(2),
        ServerStep::Recv,
        ServerStep::Recv,
    ]);
    assert!(summary.established);
    assert_eq!(summary.messages, 2);
    assert_eq!(summary.reads, 3);

    for chunk in [1u8, 7] {
        let summary = run_server(&[
            ServerStep::Chunk(chunk),
            ServerStep::Handshake,
            ServerStep::Batch(3),
            ServerStep::Dropped,
            ServerStep::Junk(vec![1]),
            ServerStep::Hello,
            ServerStep::Send(1),
        ]);
        assert!(summary.established, "chunk {chunk}");
    }
}

// Tests that framing retries Interrupted reads in every state without emitting
// a server event or changing the session.
#[test]
fn tests_test_scripted_interrupted_reads() {
    let summary = run_client(&[
        ClientStep::Interrupt,
        ClientStep::Reset,
        ClientStep::Interrupt,
        ClientStep::Hello,
        ClientStep::Interrupt,
        ClientStep::Ack,
        ClientStep::Interrupt,
        ClientStep::Request(1),
        ClientStep::Interrupt,
    ]);
    assert_eq!(summary.state, State::Established);
    assert_eq!(summary.handshakes, 1);
    assert_eq!(summary.delivered, 1);
    assert_eq!(summary.dropped, 0);
}

// Tests that framing retries Interrupted reads during a handshake or session
// without ending the call or changing its result.
#[test]
fn test_scripted_interrupted_reads() {
    let summary = run_server(&[
        ServerStep::Handshake,
        ServerStep::Interrupt,
        ServerStep::Hello,
        ServerStep::Send(1),
        ServerStep::Recv,
        ServerStep::Interrupt,
        ServerStep::Reply(1),
    ]);
    assert!(summary.established);
    assert_eq!(summary.messages, 1);
    assert_eq!(summary.failures, 0);
}

// Tests that oversized input is refused outside a session and ends an active
// session, invalidating retained senders. Its delimiter does not act as a reset;
// a fresh reset and handshake are needed before another request can succeed.
#[test]
fn tests_test_scripted_oversized_frames() {
    let summary = run_client(&[
        ClientStep::Oversized,
        ClientStep::Reset,
        ClientStep::Hello,
        ClientStep::Ack,
        ClientStep::Retain,
        ClientStep::Request(1),
        ClientStep::Oversized,
        ClientStep::SendRetained(2),
        ClientStep::Request(3),
        ClientStep::ResetPair,
        ClientStep::Hello,
        ClientStep::Ack,
        ClientStep::SendRetained(4),
        ClientStep::Request(5),
    ]);
    assert_eq!(summary.state, State::Established);
    assert_eq!(summary.handshakes, 2);
    assert_eq!(summary.delivered, 2);
    assert_eq!(summary.replies, 2);
    assert_eq!(summary.dropped, 3);
}

// Tests that an oversized receive ends the session and invalidates retained
// senders before accepting a queued reply. Draining the failed frame does not
// restore the session; only a new handshake supplies a working sender.
#[test]
fn test_scripted_oversized_frames() {
    let summary = run_server(&[
        ServerStep::Handshake,
        ServerStep::Oversized,
        ServerStep::Hello,
        ServerStep::Retain,
        ServerStep::Send(1),
        ServerStep::Oversized,
        ServerStep::Reply(1),
        ServerStep::Recv,
        ServerStep::SendRetained(2),
        ServerStep::Recv,
        ServerStep::Handshake,
        ServerStep::Hello,
        ServerStep::SendRetained(3),
        ServerStep::Send(4),
        ServerStep::Reply(4),
        ServerStep::Recv,
    ]);
    assert!(summary.established);
    assert_eq!(summary.handshakes, 2);
    assert_eq!(summary.messages, 1);
    assert_eq!(summary.failures, 2);
}

// Tests that oversized input aborts both waiting for HostHello and waiting for
// HostAck. Further handshake packets are refused until a fresh reset arrives.
#[test]
fn test_scripted_oversized_handshakes() {
    for awaiting_ack in [false, true] {
        let mut steps = vec![ClientStep::Reset];
        if awaiting_ack {
            steps.push(ClientStep::Hello);
        }
        steps.extend([
            ClientStep::Oversized,
            ClientStep::Hello,
            ClientStep::Ack,
            ClientStep::ResetPair,
            ClientStep::Hello,
            ClientStep::Ack,
            ClientStep::Request(1),
        ]);
        let summary = run_client(&steps);
        assert_eq!(summary.state, State::Established);
        assert_eq!(summary.handshakes, 1 + usize::from(awaiting_ack));
        assert_eq!(summary.delivered, 1);
        assert_eq!(summary.replies, 1);
        assert_eq!(summary.dropped, 3);
    }
}

// Tests early rejection when a partial hello precedes an oversized frame,
// including chunked input and batches containing its tail and a later reset.
// The discarded frame's delimiter is consumed once, and the real reset survives.
#[test]
fn test_scripted_oversized_partial_and_batches() {
    for chunk in [0, 255] {
        for established in [false, true] {
            let mut steps = vec![ClientStep::Chunk(chunk), ClientStep::Reset];
            if established {
                steps.extend([ClientStep::Hello, ClientStep::Ack, ClientStep::Retain]);
            }
            steps.extend([
                ClientStep::Batch(3),
                ClientStep::Partial,
                ClientStep::Oversized,
                ClientStep::ResetPair,
                ClientStep::Hello,
                ClientStep::Ack,
                ClientStep::SendRetained(1),
                ClientStep::Request(2),
            ]);
            let summary = run_client(&steps);
            assert_eq!(summary.state, State::Established);
            assert_eq!(summary.handshakes, 1 + usize::from(established));
            assert_eq!(summary.delivered, 1);
            assert_eq!(summary.replies, 1);
            assert_eq!(summary.dropped, 1);
        }
    }
}

// Tests that steps with nothing to replay or truncate yet are no-ops.
#[test]
fn tests_test_scripted_noops() {
    let summary = run_client(&[
        ClientStep::HelloReplay,
        ClientStep::AckReplay,
        ClientStep::RequestReplay,
        ClientStep::Truncated(3),
        ClientStep::Reset,
        ClientStep::Hello,
        ClientStep::Ack,
    ]);
    assert_eq!(summary.state, State::Established);
    assert_eq!(summary.dropped, 0);
}

// Tests script steps before the first client call. Read faults and unavailable
// replays or truncations do nothing. Responses without the required hello or
// session become junk that a later handshake drains.
#[test]
fn test_scripted_noops() {
    let summary = run_server(&[
        ServerStep::Yield,
        ServerStep::Interrupt,
        ServerStep::ReplyReplay,
        ServerStep::Truncated(3),
        ServerStep::Reply(1),
        ServerStep::Hello,
        ServerStep::Handshake,
        ServerStep::Hello,
    ]);
    assert!(summary.established);
    assert_eq!(summary.handshakes, 1);
}

// Tests that a failed send ends receiving even with a valid encrypted reply
// already queued. Healing the writer does not revive the session; reconnecting
// creates a fresh session that can send and receive again. EOF also ends the
// receive side after a send failure when no reply is waiting.
#[test]
fn test_scripted_send_failure_ends_receiving() {
    let summary = run_server(&[
        ServerStep::Handshake,
        ServerStep::Hello,
        ServerStep::Reply(1),
        ServerStep::Break,
        ServerStep::Send(2),
        ServerStep::Recv,
        ServerStep::Heal,
        ServerStep::Send(3),
        ServerStep::Handshake,
        ServerStep::Hello,
        ServerStep::Send(4),
        ServerStep::Reply(4),
        ServerStep::Recv,
    ]);
    assert!(summary.established);
    assert_eq!(summary.handshakes, 2);
    assert_eq!(summary.messages, 1);
    assert_eq!(summary.failures, 1);

    let summary = run_server(&[
        ServerStep::Handshake,
        ServerStep::Hello,
        ServerStep::Break,
        ServerStep::Send(1),
        ServerStep::Recv,
    ]);
    assert!(!summary.established);
    assert_eq!(summary.failures, 1);
}

// Tests that refusing an oversized send preserves both encryption sequences,
// while a corrupt reply ends both directions. A fresh handshake restores them.
#[test]
fn test_scripted_send_refusal_and_receive_failure() {
    let summary = run_server(&[
        ServerStep::SendOversized,
        ServerStep::Handshake,
        ServerStep::Hello,
        ServerStep::SendOversized,
        ServerStep::Send(1),
        ServerStep::Reply(1),
        ServerStep::Recv,
        ServerStep::ReplyTampered,
        ServerStep::Recv,
        ServerStep::Send(2),
        ServerStep::Handshake,
        ServerStep::Hello,
        ServerStep::Send(3),
        ServerStep::Reply(3),
        ServerStep::Recv,
    ]);
    assert!(summary.established);
    assert_eq!(summary.handshakes, 2);
    assert_eq!(summary.messages, 2);
    assert_eq!(summary.failures, 1);
}

// Tests handshake rejection for each invalid authentication field, signature,
// payload, key, encapsulation, and attestation. Each matching response must fail
// with the expected error and leave the client without a session.
#[test]
fn tests_test_scripted_flawed_hellos() {
    for flaw in [
        ServerStep::HelloTampered,
        ServerStep::HelloBadAuth,
        ServerStep::HelloBadSigner,
        ServerStep::HelloBadPayload,
        ServerStep::HelloBadKey,
        ServerStep::HelloBadEncap,
        ServerStep::HelloBadAttest,
    ] {
        let summary = run_server(&[ServerStep::Handshake, flaw.clone(), ServerStep::Send(1)]);
        assert!(!summary.established, "{flaw:?}");
        assert_eq!(summary.failures, 1, "{flaw:?}");

        // Without a HostHello to answer, the mock sends junk instead.
        let summary = run_server(&[flaw.clone(), ServerStep::Recv]);
        assert!(!summary.established, "{flaw:?}");
        assert_eq!(summary.failures, 1, "{flaw:?}");
    }
}

// Tests that frames not meant for the handshake in progress are drained until
// the fresh hello arrives, including backlogs larger than the old fixed limit.
#[test]
fn tests_test_scripted_stale_skipping() {
    let summary = run_server(&[
        ServerStep::Dropped,
        ServerStep::Junk(vec![1, 2, 3]),
        ServerStep::Handshake,
        ServerStep::HelloStale,
        ServerStep::Dropped,
        ServerStep::Junk(vec![]),
        ServerStep::Hello,
    ]);
    assert!(summary.established);
    assert_eq!(summary.failures, 0);

    // Reconnect drains replies left unread from the previous session.
    let summary = run_server(&[
        ServerStep::Handshake,
        ServerStep::Hello,
        ServerStep::Send(1),
        ServerStep::Reply(1),
        ServerStep::Handshake,
        ServerStep::Hello,
        ServerStep::Send(2),
        ServerStep::Reply(2),
        ServerStep::Recv,
    ]);
    assert_eq!(summary.handshakes, 2);
    assert_eq!(summary.messages, 1);
    assert_eq!(summary.failures, 0);

    // Reconnect also drains ArkHellos left from an earlier handshake.
    let summary = run_server(&[
        ServerStep::Handshake,
        ServerStep::Hello,
        ServerStep::Hello,
        ServerStep::Handshake,
        ServerStep::Hello,
    ]);
    assert_eq!(summary.handshakes, 2);
    assert!(summary.established);

    // A backlog larger than the old fixed allowance is still drained fully.
    for stale in [40, MAX_STEPS - 2] {
        let mut steps = vec![ServerStep::Handshake];
        steps.extend(std::iter::repeat_n(ServerStep::Dropped, stale));
        steps.push(ServerStep::Hello);
        let summary = run_server(&steps);
        assert!(summary.established);
        assert_eq!(summary.failures, 0);
    }

    // An undecodable frame left by an interrupted transfer is also drained.
    let summary = run_server(&[ServerStep::Handshake, ServerStep::Undecodable, ServerStep::Hello]);
    assert!(summary.established);
    assert_eq!(summary.failures, 0);
}

// Tests that a read error and EOF each abort the handshake with their own error.
#[test]
fn tests_test_scripted_handshake_interrupted() {
    let summary = run_server(&[ServerStep::Handshake, ServerStep::Yield, ServerStep::Send(1)]);
    assert!(!summary.established);
    assert_eq!(summary.failures, 1);

    let summary = run_server(&[ServerStep::Handshake]);
    assert!(!summary.established);
    assert_eq!(summary.failures, 1);
}

// Tests that failed framing or decryption ends a session. Covers replayed, stale,
// and tampered replies, junk, an unexpected ArkHello, and undecodable COBS.
#[test]
fn tests_test_scripted_undecryptable_drops_session() {
    let summary = run_server(&[
        ServerStep::Handshake,
        ServerStep::Hello,
        ServerStep::Reply(1),
        ServerStep::ReplyReplay,
        ServerStep::Recv,
        ServerStep::Recv,
        ServerStep::Send(1),
    ]);
    assert!(!summary.established);
    assert_eq!(summary.messages, 1);
    assert_eq!(summary.failures, 1);

    let summary = run_server(&[
        ServerStep::Handshake,
        ServerStep::Hello,
        ServerStep::Reply(1),
        ServerStep::Recv,
        ServerStep::Handshake,
        ServerStep::Hello,
        ServerStep::ReplyReplay,
        ServerStep::Recv,
    ]);
    assert!(!summary.established);
    assert_eq!(summary.handshakes, 2);
    assert_eq!(summary.messages, 1);
    assert_eq!(summary.failures, 1);

    let summary = run_server(&[
        ServerStep::Handshake,
        ServerStep::Hello,
        ServerStep::ReplyTampered,
        ServerStep::Recv,
    ]);
    assert!(!summary.established);

    let summary = run_server(&[
        ServerStep::Handshake,
        ServerStep::Hello,
        ServerStep::Junk(vec![7]),
        ServerStep::Recv,
    ]);
    assert!(!summary.established);

    let summary = run_server(&[ServerStep::Handshake, ServerStep::Hello, ServerStep::Hello, ServerStep::Recv]);
    assert!(!summary.established);

    let summary = run_server(&[ServerStep::Handshake, ServerStep::Hello, ServerStep::Undecodable, ServerStep::Recv]);
    assert!(!summary.established);
}

// Tests that reading a server's empty-frame signal reports SessionReset and ends
// the session. Sending remains possible until that signal is read, then requires
// a new handshake.
#[test]
fn tests_test_scripted_dropped_signal() {
    let summary = run_server(&[
        ServerStep::Handshake,
        ServerStep::Hello,
        ServerStep::Dropped,
        ServerStep::Recv,
        ServerStep::Send(1),
        ServerStep::Handshake,
        ServerStep::Hello,
        ServerStep::Send(2),
    ]);
    assert!(summary.established);
    assert_eq!(summary.handshakes, 2);
    assert_eq!(summary.resets, 1);
    assert_eq!(summary.failures, 0);

    let summary = run_server(&[
        ServerStep::Handshake,
        ServerStep::Hello,
        ServerStep::Dropped,
        ServerStep::Send(1),
        ServerStep::Recv,
        ServerStep::Send(2),
    ]);
    assert!(!summary.established);
    assert_eq!(summary.resets, 1);
    assert_eq!(summary.failures, 0);

    // Without a receive context, signals stay queued for the next handshake.
    let summary = run_server(&[ServerStep::Dropped, ServerStep::Recv]);
    assert_eq!(summary.resets, 0);
    assert_eq!(summary.failures, 1);
    assert_eq!(summary.reads, 0);

    let summary = run_server(&[
        ServerStep::Handshake,
        ServerStep::Hello,
        ServerStep::Dropped,
        ServerStep::Dropped,
        ServerStep::Recv,
        ServerStep::Recv,
    ]);
    assert!(!summary.established);
    assert_eq!(summary.resets, 1);
    assert_eq!(summary.failures, 1);
}

// Tests that receiving without a context fails before reading, regardless of
// whether input is absent, malformed or waiting to be drained by a handshake.
#[test]
fn tests_test_scripted_recv_without_session() {
    let summary = run_server(&[ServerStep::Junk(vec![1]), ServerStep::Recv]);
    assert_eq!(summary.failures, 1);
    assert_eq!(summary.reads, 0);

    let summary = run_server(&[ServerStep::Undecodable, ServerStep::Recv]);
    assert_eq!(summary.failures, 1);
    assert_eq!(summary.reads, 0);

    let summary = run_server(&[ServerStep::Recv]);
    assert_eq!(summary.failures, 1);
    assert_eq!(summary.reads, 0);

    let summary = run_server(&[ServerStep::Send(1)]);
    assert_eq!(summary.failures, 0);

    // A failed receive releases its context. Further receives leave queued
    // input for reconnect to drain before accepting fresh session traffic.
    let summary = run_server(&[
        ServerStep::Handshake,
        ServerStep::Hello,
        ServerStep::Undecodable,
        ServerStep::Recv,
        ServerStep::Junk(vec![1]),
        ServerStep::Recv,
        ServerStep::Handshake,
        ServerStep::Hello,
        ServerStep::Reply(1),
        ServerStep::Recv,
    ]);
    assert!(summary.established);
    assert_eq!(summary.failures, 2);
    assert_eq!(summary.handshakes, 2);
    assert_eq!(summary.messages, 1);
}

// Tests that a read error or EOF ends an established client session and prevents
// later sends through its old sender.
#[test]
fn tests_test_scripted_read_failure_drops_session() {
    let summary = run_server(&[ServerStep::Handshake, ServerStep::Hello, ServerStep::Recv, ServerStep::Send(1)]);
    assert!(!summary.established);
    assert_eq!(summary.failures, 1);

    let summary = run_server(&[ServerStep::Handshake, ServerStep::Hello, ServerStep::Recv]);
    assert!(!summary.established);
    assert_eq!(summary.failures, 1);
}

// Tests output cuts during a request, reset, HostHello, and HostAck. Each cut
// fails the active call. The next handshake's reset terminates any partial output
// before sending its own hello, allowing the same stream to recover.
#[test]
fn test_scripted_cut_sends() {
    for point in [
        CutPoint::Start,
        CutPoint::Middle(5),
        CutPoint::Delimiter,
        CutPoint::Flush,
    ] {
        let cut = ServerStep::Cut {
            point,
            then_broken: false,
        };

        let summary = run_server(&[
            ServerStep::Handshake,
            ServerStep::Hello,
            cut.clone(),
            ServerStep::Send(1),
            ServerStep::Handshake,
            ServerStep::Hello,
            ServerStep::Send(2),
        ]);
        assert!(summary.established, "{point:?}");
        assert_eq!(summary.handshakes, 2, "{point:?}");
        assert_eq!(summary.failures, 0, "{point:?}");

        let summary = run_server(&[cut.clone(), ServerStep::Handshake, ServerStep::Handshake, ServerStep::Hello]);
        assert!(summary.established, "{point:?}");
        assert_eq!(summary.handshakes, 1, "{point:?}");
        assert_eq!(summary.failures, 1, "{point:?}");

        let summary = run_server(&[
            ServerStep::Handshake,
            cut,
            ServerStep::Hello,
            ServerStep::Handshake,
            ServerStep::Hello,
        ]);
        assert!(summary.established, "{point:?}");
        assert_eq!(summary.handshakes, 1, "{point:?}");
        assert_eq!(summary.failures, 1, "{point:?}");
    }

    // A partial frame survives further write failures until a successful reset
    // can terminate it.
    let summary = run_server(&[
        ServerStep::Handshake,
        ServerStep::Hello,
        ServerStep::Cut {
            point: CutPoint::Middle(5),
            then_broken: true,
        },
        ServerStep::Send(1),
        ServerStep::Handshake,
        ServerStep::Heal,
        ServerStep::Handshake,
        ServerStep::Hello,
    ]);
    assert!(summary.established);
    assert_eq!(summary.handshakes, 2);
    assert_eq!(summary.failures, 1);
}

// Tests consecutive failed handshakes followed by a successful exchange. Each
// reset must retire the previous truncated hello before another output failure
// leaves its own tail. Covers cuts and timeouts, including a failed reset that
// leaves the earlier fragment untouched and one that only terminates it.
#[test]
fn test_scripted_consecutive_handshake_failures() {
    for timeout in [false, true] {
        for point in [
            CutPoint::Middle(5),
            CutPoint::Start,
            CutPoint::Middle(0),
            CutPoint::Middle(u16::MAX),
            CutPoint::Delimiter,
            CutPoint::Flush,
        ] {
            let fault = |point| {
                if timeout {
                    ServerStep::Timeout(point)
                } else {
                    ServerStep::Cut {
                        point,
                        then_broken: false,
                    }
                }
            };
            let summary = run_server(&[
                fault(CutPoint::Middle(5)),
                ServerStep::Handshake,
                fault(point),
                ServerStep::Handshake,
                ServerStep::Handshake,
                ServerStep::Hello,
                ServerStep::Send(1),
                ServerStep::Reply(1),
                ServerStep::Recv,
            ]);
            assert!(summary.established, "{point:?}, timeout: {timeout}");
            assert_eq!(summary.handshakes, 1, "{point:?}, timeout: {timeout}");
            assert_eq!(summary.messages, 1, "{point:?}, timeout: {timeout}");
            assert_eq!(summary.failures, 2, "{point:?}, timeout: {timeout}");
        }
    }
}

// Tests truncated and unterminated input. Handshake drains truncated frames;
// receiving one in a session ends it. A delimiter completes a partial ArkHello,
// while other following bytes merge into invalid input.
#[test]
fn test_scripted_interrupted_frames() {
    for cut in [0u8, 1, 7, 255] {
        let summary = run_server(&[
            ServerStep::Handshake,
            ServerStep::Hello,
            ServerStep::Handshake,
            ServerStep::Truncated(cut),
            ServerStep::Hello,
        ]);
        assert!(summary.established, "cut {cut}");
        assert_eq!(summary.handshakes, 2, "cut {cut}");
        assert_eq!(summary.failures, 0, "cut {cut}");

        let summary = run_server(&[
            ServerStep::Handshake,
            ServerStep::Hello,
            ServerStep::Send(1),
            ServerStep::Reply(1),
            ServerStep::Recv,
            ServerStep::Truncated(cut),
            ServerStep::Recv,
            ServerStep::Send(2),
        ]);
        assert!(!summary.established, "cut {cut}");
        assert_eq!(summary.messages, 1, "cut {cut}");
        assert_eq!(summary.failures, 1, "cut {cut}");
    }

    let summary = run_server(&[ServerStep::Handshake, ServerStep::Partial, ServerStep::Dropped]);
    assert!(summary.established);
    assert_eq!(summary.reads, 2);

    let summary = run_server(&[
        ServerStep::Handshake,
        ServerStep::Partial,
        ServerStep::Junk(vec![1]),
        ServerStep::Hello,
    ]);
    assert!(summary.established);
    assert_eq!(summary.failures, 0);

    let summary = run_server(&[
        ServerStep::Handshake,
        ServerStep::Partial,
        ServerStep::Partial,
        ServerStep::Dropped,
        ServerStep::Hello,
    ]);
    assert!(summary.established);
    assert_eq!(summary.failures, 0);

    let summary = run_server(&[
        ServerStep::Handshake,
        ServerStep::Hello,
        ServerStep::Send(1),
        ServerStep::Partial,
        ServerStep::Reply(1),
        ServerStep::Recv,
        ServerStep::Send(2),
    ]);
    assert!(!summary.established);
    assert_eq!(summary.failures, 1);

    let summary = run_server(&[
        ServerStep::Handshake,
        ServerStep::Hello,
        ServerStep::Partial,
        ServerStep::Dropped,
        ServerStep::Recv,
    ]);
    assert!(!summary.established);
    assert_eq!(summary.failures, 1);

    for chunk in [1u8, 7] {
        let summary = run_server(&[
            ServerStep::Chunk(chunk),
            ServerStep::Handshake,
            ServerStep::Partial,
            ServerStep::Dropped,
        ]);
        assert!(summary.established, "chunk {chunk}");
    }
}

// Tests oversized input after a partial hello, with batched and chunked reads.
// Its remaining bytes and delimiter are discarded before the fresh ArkHello.
// Further receives fail immediately until reconnect establishes a new context.
#[test]
fn test_scripted_oversized_fragments() {
    for chunk in [0, 255] {
        let summary = run_server(&[
            ServerStep::Chunk(chunk),
            ServerStep::Handshake,
            ServerStep::Batch(3),
            ServerStep::Partial,
            ServerStep::Oversized,
            ServerStep::Hello,
            ServerStep::Retain,
            ServerStep::Partial,
            ServerStep::Oversized,
            ServerStep::Recv,
            ServerStep::SendRetained(1),
            ServerStep::Recv,
            ServerStep::Dropped,
            ServerStep::Handshake,
            ServerStep::Hello,
            ServerStep::SendRetained(2),
            ServerStep::Send(3),
            ServerStep::Reply(3),
            ServerStep::Recv,
        ]);
        assert!(summary.established, "chunk {chunk}");
        assert_eq!(summary.handshakes, 2, "chunk {chunk}");
        assert_eq!(summary.failures, 2, "chunk {chunk}");
        assert_eq!(summary.resets, 0, "chunk {chunk}");
        assert_eq!(summary.messages, 1, "chunk {chunk}");
    }
}

// Tests that an oversized stale frame and a large backlog after it are drained
// before the matching hello. The number of queued old frames cannot reject an
// otherwise valid handshake.
#[test]
fn test_scripted_oversized_stale_frames() {
    for stale in [40, MAX_STEPS - 4] {
        let mut steps = vec![ServerStep::Handshake, ServerStep::Batch(255), ServerStep::Oversized];
        steps.extend(std::iter::repeat_n(ServerStep::Dropped, stale));
        steps.push(ServerStep::Hello);
        let summary = run_server(&steps);
        assert!(summary.established, "stale {stale}");
        assert_eq!(summary.handshakes, 1, "stale {stale}");
        assert_eq!(summary.failures, 0, "stale {stale}");
    }
}

// Tests that a failed two-byte reset leaves a middle cut armed: the cut needs
// at least three bytes. After writes recover, it must fail the next HostHello.
// This guards against the model spending the cut on the earlier reset.
#[test]
fn test_scripted_cut_survives_broken_handshake() {
    let summary = run_server(&[
        ServerStep::Cut {
            point: CutPoint::Middle(100),
            then_broken: true,
        },
        ServerStep::Handshake,
        ServerStep::Heal,
        ServerStep::Handshake,
    ]);
    assert_eq!(summary.handshakes, 0);
    assert_eq!(summary.failures, 2);
}

// Tests that a scripted partial failure follows the standard write contract:
// accepted bytes return Ok(n), the next call fails without accepting more, and a
// fresh frame can complete the prefix on the same adapter.
#[test]
fn test_partial_write_reports_progress_before_failure() {
    let outbox = Outbox::default();
    outbox.set_cut(CutPoint::Delimiter);
    outbox.set_write_deadline();
    assert_eq!(outbox.write(&[1, 2, 0]).unwrap(), 2);
    assert_eq!(outbox.write(&[0]).unwrap_err(), ErrorKind::BrokenPipe);
    assert!(outbox.take_frames().is_empty());
    assert!(outbox.has_tail());

    let mut shutdown = Shutdown::new();
    write_output(&mut shutdown, &outbox, &[0]).unwrap();
    assert_eq!(outbox.take_frames(), vec![vec![1, 2]]);
}

// Tests cancellation between accepting bytes and observing a scripted error.
// Starting another output operation discards the abandoned error, even when it
// reuses the original deadline for a failure notification.
#[test]
fn test_new_output_discards_abandoned_fault() {
    for cut in [CutPoint::Delimiter, CutPoint::Flush] {
        let outbox = Outbox::default();
        outbox.set_cut(cut);
        outbox.set_write_deadline();
        assert!(outbox.write(&[1, 2, 0]).unwrap() > 0);

        let mut shutdown = Shutdown::new();
        write_output(&mut shutdown, &outbox, &[0]).unwrap();
        assert!(!outbox.take_frames().is_empty());
        assert!(!outbox.has_tail());
    }
}
