//! Scripted host driving a real `ArkSide`. A script is a sequence of steps, each
//! putting the bytes of some frames in front of the Ark or handing control back to
//! the driver. The driver serves the Ark's messages and replies to whatever it
//! delivers. The host hands over the bytes of one step at a time, moving the
//! script forward once they are consumed.
//!
//! The model tracks the state the Ark should be in, the frames it should emit and
//! what it should surface for the last step. Whenever the Ark asks for more input,
//! the frames it wrote are checked against the emissions expected. The first
//! divergence ends the run.

use darkbio_crypto::xdsa::{PublicKey as VerifyingKey, SecretKey as SigningKey};
use darkbio_crypto::xhpke::{
    PublicKey as EncryptionKey, Receiver as OpeningContext, SecretKey as DecryptionKey,
    Sender as SealingContext,
};
use vstd::prelude::*;

use super::{
    frame, read_tag, self_attestation, tag, tamper, unframe, Divergence, Outbox, MAX_STEPS,
};
use crate::bytes::{append, copy, replace};
use crate::server;
use crate::side_ark::{ArkSide, Attestation, Attester};
use crate::transport;
use crate::transport::cobs;
use crate::transport::envelope;
use crate::transport::framing;
use crate::transport::handshake;
use crate::transport::handshake::{Answerer, HelloKeys};
use crate::transport::keys;
use crate::transport::sealing;
use crate::transport::session::Session;
use crate::transport::{Error, MAX_MESSAGE_SIZE};

verus! {

/// Message number of the probes the driver sends on the Ark's behalf.
pub const PROBE_ID: u64 = u64::MAX;

/// One step of the scripted host, each putting zero or more frames in front of the
/// Ark or handing control back to the driver. Frames needing a session or an
/// ArkHello the host does not have degrade into junk the Ark refuses, so any
/// sequence of steps is a valid script.
#[derive(Clone, Debug, PartialEq, Eq)]
pub enum Step {
    /// A lone zero, one empty frame.
    Reset,
    /// Two zeros, the reset as `HostSide::handshake` sends it.
    ResetPair,
    /// A valid HostHello with fresh ephemeral keys.
    Hello,
    /// The last HostHello sent, repeated. Nothing if none was sent yet.
    HelloReplay,
    /// A HostHello carrying an encryption key that fails validation.
    HelloBadKey,
    /// A valid HostAck for the ArkHello last received. Junk if there is none.
    Ack,
    /// The last HostAck sent, repeated. Nothing if none was sent yet.
    AckReplay,
    /// A HostAck for the ArkHello last received with a flipped ciphertext byte.
    /// Junk if there is none.
    AckTampered,
    /// A HostAck for the ArkHello last received bound to another Ark key than the
    /// one that answered. Junk if there is none.
    AckBadAuth,
    /// A HostAck for the ArkHello last received signed by a key other than the
    /// hello's. Junk if there is none.
    AckBadSigner,
    /// A HostAck for the ArkHello last received whose sealed payload is not an ack
    /// at all. Junk if there is none.
    AckBadPayload,
    /// A HostAck for the ArkHello last received with an encapsulated key of the
    /// wrong size. Junk if there is none.
    AckBadEncap,
    /// A sealed request tagged by the byte. Junk without a session.
    Request(u8),
    /// The last sealed request sent, repeated. Nothing if none was sent yet.
    RequestReplay,
    /// A sealed request with a flipped ciphertext byte. Junk without a session.
    RequestTampered,
    /// A sealed packet that does not stand for a number. Junk without a session.
    Garbage,
    /// The bytes as a frame, zeros mapped away and at least one byte long. Never a
    /// valid hello, the public keys one carries not surviving validation when made
    /// of arbitrary bytes.
    Junk(Vec<u8>),
    /// The last valid frame sent cut short, keeping at least one byte. Nothing if
    /// no valid frame was sent yet.
    Truncated(u8),
    /// A valid HostHello without its delimiter. The next frame's bytes merge into
    /// it, a lone delimiter completing it into the valid hello it is.
    Partial,
    /// The read fails, handing control back to the driver.
    Yield,
    /// The Ark's writes fail from here on, as on a transport that died.
    Break,
    /// The Ark's writes work again.
    Heal,
    /// Caps what a single read hands the Ark at the byte count, so frames arrive
    /// in pieces. Zero lifts the cap.
    Chunk(u8),
}

/// State the model expects the Ark to be in.
#[derive(Clone, Copy, Debug, PartialEq, Eq, Structural)]
pub enum State {
    /// No session and no handshake in progress.
    Idle,
    /// A reset arrived, a HostHello is awaited.
    AwaitHello,
    /// The ArkHello went out, a HostAck is awaited.
    AwaitAck,
    /// A session is live in both directions.
    Established,
}

impl Default for State {
    fn default() -> (state: State)
        ensures
            state == State::Idle,
    {
        State::Idle
    }
}

/// Counts of what a run observed, for scenarios to assert on.
#[derive(Clone, Copy, Debug, PartialEq, Eq, Structural)]
pub struct Summary {
    pub state: State,  // State the Ark ended up in
    pub dropped: usize,  // Empty frames the Ark emitted
    pub handshakes: usize,  // ArkHellos the Ark emitted
    pub delivered: usize,  // Requests the Ark delivered
    pub replies: usize,  // Replies and probes the Ark sealed
}

impl Default for Summary {
    fn default() -> (summary: Summary)
        ensures
            summary == (Summary {
                state: State::Idle,
                dropped: 0,
                handshakes: 0,
                delivered: 0,
                replies: 0,
            }),
    {
        Summary { state: State::Idle, dropped: 0, handshakes: 0, delivered: 0, replies: 0 }
    }
}

/// Frame the model expects the Ark to emit.
#[derive(Clone, Copy, Debug, PartialEq, Eq, Structural)]
pub enum Emit {
    /// The empty frame signaling that the Ark has no session.
    Dropped,
    /// The delimiter in front of the first output behind a failed one, which makes an
    /// empty frame as nothing of the failed one went out.
    Recovery,
    /// The handshake reply, sealed to the hello being answered.
    ArkHello,
    /// A sealed message of the number, sent by the driver on the Ark's behalf.
    Reply(u64),
}

/// What the model expects the Ark to surface for the last step.
#[derive(Clone, Copy, Debug, PartialEq, Eq, Structural)]
pub enum Outcome {
    /// The Ark keeps reading.
    Absorbed,
    /// A message of the number is delivered.
    Message(u64),
    /// A message that stands for no number, the session staying intact.
    Undecodable,
    /// The failed read of a yield.
    Yield,
    /// The end of the stream, the script having run out.
    Terminated,
}

/// Kind of a frame put in front of the Ark.
pub enum Kind {
    /// The empty frame, a reset.
    Empty,
    /// A valid HostHello.
    Hello,
    /// A valid HostAck for the ArkHello last received.
    Ack,
    /// A request of the number, sealed in the session.
    Request(u64),
    /// A packet sealed in the session that stands for no number.
    Garbage,
    /// Anything else, refused in every state.
    Junk,
}

/// Kind of the unterminated frame in front of the Ark.
pub enum Stub {
    /// The stream is at a frame boundary.
    Boundary,
    /// A hello lacking only its delimiter.
    Hello,
    /// Bytes no delimiter can complete into anything valid.
    Junk,
}

/// The model: what the script has sent, what the Ark should be doing, and what is
/// to be seen of it.
pub struct Model {
    pub state: State,  // State the Ark should be in
    pub partial: Stub,  // Unterminated frame in front of the Ark
    pub broken: bool,  // Whether the Ark's writes fail
    pub resync: bool,  // Whether the Ark's last output failed
    pub hello: bool,  // Whether a HostHello was sent
    pub ack: bool,  // Whether a HostAck was sent
    pub request: bool,  // Whether a request was sent
    pub valid: bool,  // Whether a valid frame was sent
    pub awaiting: bool,  // Whether an ArkHello is expected
    pub pending: bool,  // Whether an ArkHello awaits the host's ack
    pub session: bool,  // Whether the host has a session
    pub outcome: Outcome,  // What the Ark should surface for the last step
    pub emits: Seq<Emit>,  // Frames the Ark should have emitted since the last check
    pub dropped: nat,  // Empty frames seen
    pub handshakes: nat,  // ArkHellos seen
    pub delivered: nat,  // Requests delivered
    pub replies: nat,  // Replies and probes seen
}

impl Model {
    /// The model before the first step.
    pub open spec fn start() -> Model {
        Model {
            state: State::Idle,
            partial: Stub::Boundary,
            broken: false,
            resync: false,
            hello: false,
            ack: false,
            request: false,
            valid: false,
            awaiting: false,
            pending: false,
            session: false,
            outcome: Outcome::Absorbed,
            emits: Seq::empty(),
            dropped: 0,
            handshakes: 0,
            delivered: 0,
            replies: 0,
        }
    }

    /// Forgets any session or handshake in progress, for another state.
    pub open spec fn forgotten(self, state: State) -> Model {
        Model { session: false, pending: false, state, ..self }
    }

    /// Expects a frame, unless the transport is broken and the frame is lost. A
    /// delimiter recovers from the last output if that failed.
    pub open spec fn emitting(self, emit: Emit) -> Model {
        if self.broken {
            Model { resync: true, ..self }
        } else if self.resync {
            Model { emits: self.emits.push(Emit::Recovery).push(emit), resync: false, ..self }
        } else {
            Model { emits: self.emits.push(emit), ..self }
        }
    }

    /// A frame arrives at the Ark. An unterminated frame in front swallows it, a
    /// lone delimiter completing a partial hello into a valid one and anything
    /// else into junk. A reset restarts the handshake in every state. A frame that
    /// the state calls for moves it on. Everything else drops what the Ark had.
    #[verifier::opaque]
    pub open spec fn delivered(self, kind: Kind) -> Model {
        let kind = match (self.partial, kind) {
            (Stub::Boundary, kind) => kind,
            (Stub::Hello, Kind::Empty) => Kind::Hello,
            _ => Kind::Junk,
        };
        let model = Model { partial: Stub::Boundary, ..self };
        match (self.state, kind) {
            (_, Kind::Empty) => model.forgotten(State::AwaitHello),
            (State::AwaitHello, Kind::Hello) => if self.broken {
                Model { resync: true, ..model.forgotten(State::Idle) }
            } else {
                Model { awaiting: true, state: State::AwaitAck, ..model }.emitting(Emit::ArkHello)
            },
            (State::AwaitAck, Kind::Ack) => Model { state: State::Established, ..model },
            (State::Established, Kind::Request(id)) => Model {
                outcome: Outcome::Message(id),
                ..model
            },
            (State::Established, Kind::Garbage) => Model {
                outcome: Outcome::Undecodable,
                ..model
            },
            _ => model.forgotten(State::Idle).emitting(Emit::Dropped),
        }
    }

    /// A read fails, which aborts a handshake in progress but leaves a session
    /// untouched.
    pub open spec fn interrupted(self, outcome: Outcome) -> Model {
        if self.state == State::AwaitHello || self.state == State::AwaitAck {
            Model { outcome, ..self.forgotten(State::Idle) }
        } else {
            Model { outcome, ..self }
        }
    }

    /// The script executes a step.
    #[verifier::opaque]
    pub open spec fn executed(self, step: Step) -> Model {
        match step {
            Step::Reset => self.delivered(Kind::Empty),
            Step::ResetPair => self.delivered(Kind::Empty).delivered(Kind::Empty),
            Step::Hello => Model { hello: true, valid: true, ..self }.delivered(Kind::Hello),
            Step::HelloReplay => if self.hello {
                self.delivered(Kind::Hello)
            } else {
                self
            },
            Step::Ack => if self.pending {
                Model {
                    pending: false,
                    session: true,
                    ack: true,
                    valid: true,
                    ..self
                }.delivered(Kind::Ack)
            } else {
                self.delivered(Kind::Junk)
            },
            Step::AckReplay => if self.ack {
                self.delivered(Kind::Junk)
            } else {
                self
            },
            Step::Request(id) => if self.session {
                Model { request: true, valid: true, ..self }.delivered(Kind::Request(id as u64))
            } else {
                self.delivered(Kind::Junk)
            },
            Step::RequestReplay => if self.request {
                self.delivered(Kind::Junk)
            } else {
                self
            },
            Step::Garbage => if self.session {
                Model { valid: true, ..self }.delivered(Kind::Garbage)
            } else {
                self.delivered(Kind::Junk)
            },
            Step::Truncated(_) => if self.valid {
                self.delivered(Kind::Junk)
            } else {
                self
            },
            Step::Partial => Model {
                partial: if self.partial is Boundary {
                    Stub::Hello
                } else {
                    Stub::Junk
                },
                ..self
            },
            Step::Yield => self.interrupted(Outcome::Yield),
            Step::Break => Model { broken: true, ..self },
            Step::Heal => Model { broken: false, ..self },
            Step::Chunk(_) => self,
            _ => self.delivered(Kind::Junk),
        }
    }

    /// The driver sends a message on the Ark's behalf. It goes out exactly in a
    /// session on a working transport. A failed send takes the session down.
    pub open spec fn sending(self, id: u64) -> Model {
        if self.state != State::Established {
            self
        } else if self.broken {
            Model { resync: true, ..self.forgotten(State::Idle) }
        } else {
            self.emitting(Emit::Reply(id))
        }
    }

    /// The driver reacts to what the Ark surfaced: it replies to a message, and
    /// probes the send path when the script hands control back.
    #[verifier::opaque]
    pub open spec fn answered(self) -> Model {
        let model = Model { outcome: Outcome::Absorbed, ..self };
        match self.outcome {
            Outcome::Message(id) => Model { delivered: self.delivered + 1, ..model }.sending(id),
            Outcome::Undecodable => model,
            Outcome::Yield => model.sending(PROBE_ID),
            _ => self,
        }
    }

    /// The host sees one of the expected frames. An ArkHello can be acked while
    /// the Ark is still awaiting that.
    pub open spec fn seeing(self, emit: Emit) -> Model {
        match emit {
            Emit::Dropped => Model { dropped: self.dropped + 1, ..self },
            Emit::Recovery => self,
            Emit::ArkHello => Model {
                handshakes: self.handshakes + 1,
                awaiting: false,
                pending: self.pending || self.state == State::AwaitAck,
                ..self
            },
            Emit::Reply(_) => Model { replies: self.replies + 1, ..self },
        }
    }

    /// The host sees the first of the expected frames.
    pub open spec fn seeing_all(self, emits: Seq<Emit>, count: int) -> Model
        decreases count,
    {
        if count <= 0 {
            Model { emits: Seq::empty(), ..self }
        } else {
            self.seeing_all(emits, count - 1).seeing(emits[count - 1])
        }
    }

    /// The host sees everything that the Ark should have emitted.
    pub open spec fn settled(self) -> Model {
        self.seeing_all(self.emits, self.emits.len() as int)
    }

    /// Frames seen or expected so far.
    pub open spec fn weight(self) -> nat {
        self.dropped + self.handshakes + self.replies + self.emits.len()
    }
}

/// The model after the first steps of a script, everything seen.
pub open spec fn ran(steps: Seq<Step>, count: int) -> Model
    decreases count,
{
    if count <= 0 {
        Model::start()
    } else {
        ran(steps, count - 1).executed(steps[count - 1]).answered().settled()
    }
}

/// The model after the first steps of a script, the last one just executed.
pub open spec fn reached(steps: Seq<Step>, count: int) -> Model {
    if count <= 0 {
        Model::start()
    } else {
        ran(steps, count - 1).executed(steps[count - 1])
    }
}

/// Number of steps that a script is run for.
pub open spec fn run_length(steps: Seq<Step>) -> int {
    if steps.len() < MAX_STEPS {
        steps.len() as int
    } else {
        MAX_STEPS as int
    }
}

/// Where a script leaves the model once it ran out.
pub open spec fn finished(steps: Seq<Step>) -> Model {
    ran(steps, run_length(steps)).interrupted(Outcome::Terminated)
}

/// Whether a summary tells what the model says of a script.
pub open spec fn summarizes(summary: Summary, steps: Seq<Step>) -> bool {
    let model = finished(steps);
    &&& summary.state == model.state
    &&& summary.dropped == model.dropped
    &&& summary.handshakes == model.handshakes
    &&& summary.delivered == model.delivered
    &&& summary.replies == model.replies
}

/// Seeing the expected frames counts no more than their number, and what was not seen is
/// unchanged.
proof fn lemma_seeing(model: Model, emits: Seq<Emit>, count: int)
    requires
        0 <= count <= emits.len(),
    ensures
        ({
            let seen = model.seeing_all(emits, count);
            &&& seen.dropped + seen.handshakes + seen.replies <= model.dropped + model.handshakes
                + model.replies + count
            &&& seen.emits == Seq::<Emit>::empty()
            &&& seen.delivered == model.delivered
            &&& seen.outcome == model.outcome
            &&& seen.state == model.state
            &&& seen.partial == model.partial
            &&& seen.broken == model.broken
            &&& seen.resync == model.resync
            &&& seen.session == model.session
            &&& seen.pending ==> model.pending || model.state == State::AwaitAck
        }),
    decreases count,
{
    if count > 0 {
        lemma_seeing(model, emits, count - 1);
    }
}

/// No step makes the Ark emit more than three frames, each behind a recovery at most, or
/// deliver more than one message.
proof fn lemma_weight(steps: Seq<Step>, count: int)
    ensures
        count >= 0 ==> ran(steps, count).weight() <= 6 * count,
        count >= 0 ==> ran(steps, count).delivered <= count,
        count > 0 ==> reached(steps, count).weight() <= 6 * count - 2,
        count > 0 ==> reached(steps, count).delivered <= count - 1,
        count > 0 ==> reached(steps, count).answered().weight() <= 6 * count,
        count > 0 ==> reached(steps, count).answered().delivered <= count,
    decreases count,
{
    if count > 0 {
        lemma_weight(steps, count - 1);
        let after = reached(steps, count);
        lemma_step_weight(ran(steps, count - 1), steps[count - 1]);
        lemma_answer_weight(after);
        let answered = after.answered();
        lemma_seeing(answered, answered.emits, answered.emits.len() as int);
    }
}

/// A frame makes the Ark emit at most one frame and a recovery.
proof fn lemma_frame_weight(model: Model, kind: Kind)
    ensures
        model.delivered(kind).weight() <= model.weight() + 2,
        model.delivered(kind).delivered == model.delivered,
{
    reveal(Model::delivered);
}

/// A step makes the Ark emit at most two frames itself, and their recoveries.
proof fn lemma_step_weight(model: Model, step: Step)
    ensures
        model.executed(step).weight() <= model.weight() + 4,
        model.executed(step).delivered == model.delivered,
{
    reveal(Model::executed);
    let kind = match step {
        Step::Reset => Kind::Empty,
        Step::ResetPair => Kind::Empty,
        Step::Hello => Kind::Hello,
        Step::HelloReplay => Kind::Hello,
        Step::Ack => Kind::Ack,
        Step::Request(id) => Kind::Request(id as u64),
        Step::Garbage => Kind::Garbage,
        _ => Kind::Junk,
    };
    let sent = match step {
        Step::Hello => Model { hello: true, valid: true, ..model },
        Step::Ack => Model { pending: false, session: true, ack: true, valid: true, ..model },
        Step::Request(_) => Model { request: true, valid: true, ..model },
        Step::Garbage => Model { valid: true, ..model },
        _ => model,
    };
    lemma_frame_weight(sent, kind);
    lemma_frame_weight(model, Kind::Junk);
    lemma_frame_weight(model.delivered(Kind::Empty), Kind::Empty);
}

/// The driver makes the Ark emit at most one frame and a recovery, and counts at most
/// one message.
proof fn lemma_answer_weight(model: Model)
    ensures
        model.answered().weight() <= model.weight() + 2,
        model.answered().delivered <= model.delivered + 1,
{
    reveal(Model::answered);
}

/// Unterminated frame in front of the Ark, waiting for the delimiter that completes
/// it into a frame.
enum Partial {
    Boundary,
    Hello(HelloKeys),
    Junk,
}

impl Partial {
    /// Kind of the unterminated frame.
    spec fn stub(self) -> Stub {
        match self {
            Partial::Boundary => Stub::Boundary,
            Partial::Hello(_) => Stub::Hello,
            Partial::Junk => Stub::Junk,
        }
    }
}

/// A frame put in front of the Ark.
pub enum Frame {
    Empty,
    Hello(HelloKeys),
    Ack,
    Request(u64),
    Garbage,
    Junk,
}

impl Frame {
    /// Kind of the frame.
    pub open spec fn kind(self) -> Kind {
        match self {
            Frame::Empty => Kind::Empty,
            Frame::Hello(_) => Kind::Hello,
            Frame::Ack => Kind::Ack,
            Frame::Request(id) => Kind::Request(id),
            Frame::Garbage => Kind::Garbage,
            Frame::Junk => Kind::Junk,
        }
    }
}

/// What is wrong with a HostAck crafted to be refused, in the order the Ark finds
/// them.
#[derive(Clone, Copy, Debug, PartialEq, Eq, Structural)]
pub enum AckFlaw {
    Tampered,
    Auth,
    Signer,
    Payload,
    Encap,
}

/// An ArkHello received, everything needed to ack it. Only kept while the Ark
/// awaits that ack.
pub struct Pending {
    pub keys: HelloKeys,
    pub ark_crypto: EncryptionKey,
    pub receiver: OpeningContext,
}

impl Pending {
    /// The HostAck completing the handshake, along with the session it opens on
    /// the host's side.
    pub fn ack(self, identity: &VerifyingKey) -> (made: Result<(Vec<u8>, Session), Error>)
        ensures
            match made {
                Ok(made) => {
                    &&& made.1.receiver == self.receiver
                    &&& handshake::acknowledged(
                        made.1.sender,
                        made.0@,
                        self.keys.signer,
                        *identity,
                        self.ark_crypto,
                        None,
                    )
                },
                Err(_) => false,
            },
    {
        match handshake::acknowledge(&self.keys.signer, identity, &self.ark_crypto, None) {
            Ok((sender, ack)) => Ok((ack, Session { sender, receiver: self.receiver })),
            Err(err) => Err(err),
        }
    }

    /// A HostAck flawed as requested, so the Ark refuses it for that one reason:
    /// a flipped byte, another key authenticated along, a stranger's signature, a
    /// payload of two strings, or an encapsulated key of three bytes. The keys of
    /// strangers are drawn, and so is the encapsulated key.
    pub fn bad_ack(&self, identity: &VerifyingKey, flaw: AckFlaw) -> (made: Option<Vec<u8>>)
        ensures
            made matches Some(packet) && packet@.len() <= handshake::MAX_ACK_SIZE && exists|
                sender: SealingContext,
                other: EncryptionKey,
                stranger: SigningKey,
            |
                #[trigger]
                flawed(*self, *identity, flaw, sender, other, stranger, packet@),
    {
        let drawn = AckKeys::generate(&self.ark_crypto);
        let ghost sender = drawn.sender;
        let AckKeys { encap, other, stranger, .. } = drawn;
        let made = self.bad_ack_with(identity, flaw, encap, &other, &stranger);
        assert(made matches Some(packet) && flawed(
            *self,
            *identity,
            flaw,
            sender,
            other,
            stranger,
            packet@,
        ));
        made
    }

    /// A HostAck flawed as requested, by the keys given: the encapsulated key that it
    /// holds, the key that is authenticated along in place of the Ark's, and the one that
    /// signs in place of the host's.
    pub fn bad_ack_with(
        &self,
        identity: &VerifyingKey,
        flaw: AckFlaw,
        encap: Vec<u8>,
        other: &EncryptionKey,
        stranger: &SigningKey,
    ) -> (made: Option<Vec<u8>>)
        requires
            encap@.len() == keys::ENCAP_KEY_SIZE,
        ensures
            made matches Some(packet) && packet@.len() <= handshake::MAX_ACK_SIZE && flawed_by(
                *self,
                *identity,
                flaw,
                encap@,
                *other,
                *stranger,
                packet@,
            ),
    {
        proof {
            handshake::lemma_domains();
        }
        let ghost whole = encap@;
        let auth = handshake::encode_keys(
            identity,
            if flaw == AckFlaw::Auth {
                other
            } else {
                &self.ark_crypto
            },
        );
        let signer = if flaw == AckFlaw::Signer {
            stranger
        } else {
            &self.keys.signer
        };
        let mut items: Vec<Vec<u8>> = Vec::new();
        if flaw == AckFlaw::Payload {
            let first: Vec<u8> = vec![1u8];
            let second: Vec<u8> = vec![2u8];
            assert(first@ =~= seq![1u8] && second@ =~= seq![2u8]);
            items.push(first);
            items.push(second);
        } else if flaw == AckFlaw::Encap {
            let short: Vec<u8> = vec![0x42u8, 0x42u8, 0x42u8];
            assert(short@ =~= seq![0x42u8, 0x42u8, 0x42u8]);
            items.push(short);
        } else {
            items.push(encap);
        }
        let ghost list = envelope::contents(items@);
        proof {
            reveal_with_fuel(envelope::list_bound, 3);
            assert(list.len() == 1 || list.len() == 2);
            assert(list[0] == items@[0]@);
            assert(list.drop_last().len() == list.len() - 1);
            assert(list =~= ack_list(flaw, whole));
        }
        let payload = envelope::encode_list(items);
        match handshake::seal_message(payload, auth, signer, &self.ark_crypto, None) {
            Ok(sealed) => {
                let ghost clean = sealed@;
                let mut packet = sealed;
                if flaw == AckFlaw::Tampered {
                    tamper(&mut packet);
                }
                assert(misacked(*self, *identity, flaw, whole, *other, *stranger, clean));
                Some(packet)
            },
            Err(_) => None,
        }
    }
}

/// Keys drawn for a flawed ack: a context of the host's with its encapsulated key, and the
/// keys of strangers.
struct AckKeys {
    sender: SealingContext,
    encap: Vec<u8>,
    other: EncryptionKey,
    stranger: SigningKey,
}

impl AckKeys {
    /// The context sets up an exchange with a key of the Ark's.
    spec fn suits(self, crypto: EncryptionKey) -> bool {
        &&& keys::xhpke_set_up(
            self.sender,
            crypto,
            handshake::CRYPTO_DOMAIN_WIRE_HOST_TO_ARK@,
        )
        &&& sealing::sender_sequence(self.sender) == 0
        &&& self.encap@ == keys::sender_encap(self.sender)
        &&& self.encap@.len() == keys::ENCAP_KEY_SIZE
    }

    /// Draws the keys.
    fn generate(crypto: &EncryptionKey) -> (drawn: AckKeys)
        ensures
            drawn.suits(*crypto),
    {
        proof {
            handshake::lemma_domains();
        }
        let (sender, encap) = keys::new_sender(
            crypto,
            handshake::CRYPTO_DOMAIN_WIRE_HOST_TO_ARK,
        ).unwrap();
        let other = DecryptionKey::generate().public_key();
        AckKeys { sender, encap, other, stranger: SigningKey::generate() }
    }
}

/// What an ack with a flaw holds, the encapsulated key being given.
pub open spec fn ack_list(flaw: AckFlaw, encap: Seq<u8>) -> Seq<Seq<u8>> {
    match flaw {
        AckFlaw::Payload => seq![seq![1u8], seq![2u8]],
        AckFlaw::Encap => seq![seq![0x42u8, 0x42u8, 0x42u8]],
        _ => seq![encap],
    }
}

/// Envelope of a flawed ack before a byte of it may be flipped: what it holds, which key
/// it authenticates along with the identity, and who signed it.
pub open spec fn misacked(
    pending: Pending,
    identity: VerifyingKey,
    flaw: AckFlaw,
    encap: Seq<u8>,
    other: EncryptionKey,
    stranger: SigningKey,
    packet: Seq<u8>,
) -> bool {
    envelope::sealed(
        packet,
        envelope::cbor_list(ack_list(flaw, encap)),
        handshake::key_pair(
            identity,
            if flaw == AckFlaw::Auth {
                other
            } else {
                pending.ark_crypto
            },
        ),
        if flaw == AckFlaw::Signer {
            stranger
        } else {
            pending.keys.signer
        },
        pending.ark_crypto,
        handshake::CRYPTO_DOMAIN_WIRE@,
        None,
    )
}

/// Whether a packet is an ack with a flaw, made of the keys given.
pub open spec fn flawed_by(
    pending: Pending,
    identity: VerifyingKey,
    flaw: AckFlaw,
    encap: Seq<u8>,
    other: EncryptionKey,
    stranger: SigningKey,
    packet: Seq<u8>,
) -> bool {
    exists|clean: Seq<u8>|
        {
            &&& #[trigger] misacked(pending, identity, flaw, encap, other, stranger, clean)
            &&& packet == if flaw == AckFlaw::Tampered {
                super::tampered(clean)
            } else {
                clean
            }
        }
}

/// Whether a packet is an ack with a flaw, which sets up a context of the host's, made of
/// the keys drawn in place of the right ones.
pub open spec fn flawed(
    pending: Pending,
    identity: VerifyingKey,
    flaw: AckFlaw,
    sender: SealingContext,
    other: EncryptionKey,
    stranger: SigningKey,
    packet: Seq<u8>,
) -> bool {
    &&& keys::xhpke_set_up(
        sender,
        pending.ark_crypto,
        handshake::CRYPTO_DOMAIN_WIRE_HOST_TO_ARK@,
    )
    &&& sealing::sender_sequence(sender) == 0
    &&& flawed_by(
        pending,
        identity,
        flaw,
        keys::sender_encap(sender),
        other,
        stranger,
        packet,
    )
}

/// Whether the key drawn in place of the right one is another one.
pub open spec fn estranged(
    pending: Pending,
    flaw: AckFlaw,
    other: EncryptionKey,
    stranger: SigningKey,
) -> bool {
    match flaw {
        AckFlaw::Auth => other != pending.ark_crypto,
        AckFlaw::Signer => keys::xdsa_public(stranger) != keys::xdsa_public(pending.keys.signer),
        _ => true,
    }
}

/// Whether all bytes are delimiters.
pub open spec fn zeros(bytes: Seq<u8>) -> bool {
    forall|i: int| 0 <= i < bytes.len() ==> bytes[i] == 0
}

/// Whether the Ark refuses a frame in place of a hello: it is too short for one, it does
/// not decode, or what it decodes to is none.
pub open spec fn refused(body: Seq<u8>) -> bool {
    ||| body.len() <= keys::VERIFYING_KEY_SIZE
    ||| cobs::overruns(body)
    ||| cobs::cobs_decoded(body) matches Ok(packet) ==> handshake::hello_keys(packet) is None
}

/// Whether the Ark reads a hello in the body of a frame.
pub open spec fn readable(body: Seq<u8>) -> bool {
    &&& cobs::zero_free(body)
    &&& cobs::cobs_decoded(body) matches Ok(packet)
    &&& handshake::hello_keys(packet) is Some
}

/// Whether the junk of a step fits a frame, along with what is unterminated in front of it.
pub open spec fn step_fits(model: Model, step: Step) -> bool {
    step matches Step::Junk(junk) ==> zeroless(junk@).len() <= if model.partial is Boundary {
        transport::MAX_FRAME_SIZE as int
    } else {
        transport::MAX_FRAME_SIZE - MAX_STEPS * MAX_STUB_SIZE
    }
}

/// Whether all the junk of a script fits frames.
#[verifier::opaque]
pub open spec fn junk_fits(steps: Seq<Step>) -> bool {
    forall|i: int| 0 <= i < run_length(steps) ==> step_fits(ran(steps, i), #[trigger] steps[i])
}

/// Whether a step puts nothing in front of the Ark that it could answer as a hello, by
/// the model. While a hello is awaited on a working transport, no hello is sent and no
/// unterminated one completed, and junk is refused in place of one. Junk fits a frame.
#[verifier::opaque]
pub open spec fn meek(model: Model, step: Step) -> bool {
    let awaited = model.state == State::AwaitHello && !model.broken;
    match step {
        Step::Partial | Step::Yield | Step::Break | Step::Heal | Step::Chunk(_) => true,
        Step::Hello | Step::HelloBadKey => !awaited,
        Step::HelloReplay => awaited ==> !model.hello,
        Step::AckReplay => awaited ==> !model.ack,
        Step::RequestReplay => awaited ==> !model.request,
        Step::Truncated(_) => awaited && model.valid ==> model.partial is Boundary,
        Step::Junk(junk) => {
            &&& step_fits(model, step)
            &&& awaited ==> model.partial is Boundary && refused(zeroless(junk@))
        },
        _ => awaited ==> model.partial is Boundary,
    }
}

/// Whether a script never comes to a hello that the Ark answers, by the model.
#[verifier::opaque]
pub open spec fn unanswered(steps: Seq<Step>) -> bool {
    forall|i: int| 0 <= i < run_length(steps) ==> meek(ran(steps, i), #[trigger] steps[i])
}

/// A script that never comes to an answered hello has junk that fits.
#[verifier::spinoff_prover]
proof fn lemma_unanswered_fits(steps: Seq<Step>)
    requires
        unanswered(steps),
    ensures
        junk_fits(steps),
{
    reveal(unanswered);
    reveal(junk_fits);
    assert forall|i: int| 0 <= i < run_length(steps) implies step_fits(
        ran(steps, i),
        #[trigger] steps[i],
    ) by {
        assert(meek(ran(steps, i), steps[i]));
        reveal(meek);
    }
}

/// Kind of the frame that a step stands for.
pub open spec fn kind_for(model: Model, step: Step) -> Kind {
    match step {
        Step::Reset | Step::ResetPair => Kind::Empty,
        Step::Hello | Step::HelloReplay => Kind::Hello,
        Step::Ack => if model.pending {
            Kind::Ack
        } else {
            Kind::Junk
        },
        Step::Request(id) => if model.session {
            Kind::Request(id as u64)
        } else {
            Kind::Junk
        },
        Step::Garbage => if model.session {
            Kind::Garbage
        } else {
            Kind::Junk
        },
        _ => Kind::Junk,
    }
}

/// The model after a step has noted what it sends.
spec fn noted(model: Model, step: Step) -> Model {
    match step {
        Step::Hello => Model { hello: true, valid: true, ..model },
        Step::Ack if model.pending => Model {
            pending: false,
            session: true,
            ack: true,
            valid: true,
            ..model
        },
        Step::Request(_) if model.session => Model { request: true, valid: true, ..model },
        Step::Garbage if model.session => Model { valid: true, ..model },
        _ => model,
    }
}

/// Whether a step puts a frame in front of the Ark, an unterminated one being none.
pub open spec fn puts_frame(model: Model, step: Step) -> bool {
    match step {
        Step::Partial | Step::Yield | Step::Break | Step::Heal | Step::Chunk(_) => false,
        Step::HelloReplay => model.hello,
        Step::AckReplay => model.ack,
        Step::RequestReplay => model.request,
        Step::Truncated(_) => model.valid,
        _ => true,
    }
}

/// Kind of the frame that another one makes behind an unterminated one.
pub open spec fn joined(partial: Stub, kind: Kind) -> Kind {
    match (partial, kind) {
        (Stub::Boundary, kind) => kind,
        (Stub::Hello, Kind::Empty) => Kind::Hello,
        _ => Kind::Junk,
    }
}

/// Kind of the first frame that a step completes.
pub open spec fn due(model: Model, step: Step) -> Kind {
    joined(model.partial, kind_for(model, step))
}

/// What a frame comes to in a state: what the state calls for, a reset, or junk. A hello
/// comes to junk on a broken transport, where its answer does not get out.
pub open spec fn canon(state: State, broken: bool, kind: Kind) -> Kind {
    match (state, kind) {
        (_, Kind::Empty) => Kind::Empty,
        (State::AwaitHello, Kind::Hello) => if broken {
            Kind::Junk
        } else {
            Kind::Hello
        },
        (State::AwaitAck, Kind::Ack) => Kind::Ack,
        (State::Established, Kind::Request(id)) => Kind::Request(id),
        (State::Established, Kind::Garbage) => Kind::Garbage,
        _ => Kind::Junk,
    }
}

/// State that a frame leaves the Ark in, by what it comes to.
spec fn state_by(kind: Kind) -> State {
    match kind {
        Kind::Empty => State::AwaitHello,
        Kind::Hello => State::AwaitAck,
        Kind::Junk => State::Idle,
        _ => State::Established,
    }
}

/// What is expected behind a failed output comes with a delimiter in front.
spec fn recovered(emits: Seq<Emit>, resync: bool) -> Seq<Emit> {
    if resync {
        emits.push(Emit::Recovery)
    } else {
        emits
    }
}

/// What the model makes of a frame, by what it comes to.
proof fn lemma_effect(model: Model, kind: Kind)
    ensures
        ({
            let after = model.delivered(kind);
            let came = canon(model.state, model.broken, joined(model.partial, kind));
            &&& after.partial is Boundary
            &&& after.broken == model.broken
            &&& after.state == state_by(came)
            &&& after.outcome == match came {
                Kind::Request(id) => Outcome::Message(id),
                Kind::Garbage => Outcome::Undecodable,
                _ => model.outcome,
            }
            &&& match came {
                Kind::Hello => {
                    &&& !after.resync
                    &&& after.emits == recovered(model.emits, model.resync).push(Emit::ArkHello)
                },
                Kind::Junk => if model.broken {
                    after.resync && after.emits == model.emits
                } else {
                    &&& !after.resync
                    &&& after.emits == recovered(model.emits, model.resync).push(Emit::Dropped)
                },
                _ => after.resync == model.resync && after.emits == model.emits,
            }
        }),
{
    reveal(Model::delivered);
}

/// What the model makes of a step that puts a frame in front of the Ark.
proof fn lemma_executed(model: Model, step: Step)
    ensures
        puts_frame(model, step) ==> model.executed(step) == if step is ResetPair {
            model.delivered(Kind::Empty).delivered(Kind::Empty)
        } else {
            noted(model, step).delivered(kind_for(model, step))
        },
        !puts_frame(model, step) && !(step is Yield) ==> model.executed(step) == (Model {
            broken: model.executed(step).broken,
            partial: model.executed(step).partial,
            ..model
        }),
        !puts_frame(model, step) && !(step is Partial || step is Yield) ==> model.executed(
            step,
        ).partial == model.partial,
        step is Partial ==> !(model.executed(step).partial is Boundary),
{
    reveal(Model::executed);
}

/// Whether output is what was to be emitted, as far as that shows without opening it: as
/// many frames, those of signals and recoveries being empty.
#[verifier::opaque]
spec fn emitted(bytes: Seq<u8>, emits: Seq<Emit>) -> bool {
    let frames = framing::pieces(bytes);
    &&& super::terminated(bytes)
    &&& frames.len() == emits.len()
    &&& forall|i: int|
        0 <= i < emits.len() && (emits[i] == Emit::Dropped || emits[i] == Emit::Recovery)
            ==> #[trigger] frames[i].len() == 0
}

/// Without output nothing was to be emitted.
proof fn lemma_emitted_none()
    ensures
        emitted(Seq::empty(), Seq::empty()),
{
    reveal(emitted);
    framing::lemma_first_zero(Seq::<u8>::empty());
    assert(framing::pieces(Seq::<u8>::empty()) =~= Seq::<Seq<u8>>::empty());
}

/// One more frame is what was to be emitted.
proof fn lemma_emitted_more(
    bytes: Seq<u8>,
    emits: Seq<Emit>,
    resync: bool,
    body: Seq<u8>,
    emit: Emit,
)
    requires
        emitted(bytes, emits),
        cobs::zero_free(body),
        emit == Emit::Dropped || emit == Emit::Recovery ==> body.len() == 0,
    ensures
        emitted(bytes + framing::framed(resync, body), recovered(emits, resync).push(emit)),
{
    reveal(emitted);
    let none = Seq::<u8>::empty();
    let tail = body + seq![0u8];
    framing::lemma_piece(none);
    framing::lemma_piece(body);
    assert(none + seq![0u8] =~= seq![0u8]);
    if resync {
        assert(framing::framed(resync, body) =~= seq![0u8] + tail);
        framing::lemma_pieces(seq![0u8], tail);
        framing::lemma_pieces(bytes, seq![0u8] + tail);
        let frames = framing::pieces(bytes) + (seq![none] + seq![body]);
        assert(framing::pieces(bytes + framing::framed(resync, body)) =~= frames);
    } else {
        framing::lemma_pieces(bytes, tail);
        let frames = framing::pieces(bytes) + seq![body];
        assert(framing::pieces(bytes + framing::framed(resync, body)) =~= frames);
    }
    let more = recovered(emits, resync).push(emit);
    let frames = framing::pieces(bytes + framing::framed(resync, body));
    assert forall|i: int|
        0 <= i < more.len() && (more[i] == Emit::Dropped || more[i]
            == Emit::Recovery) implies #[trigger] frames[i].len() == 0 by {
        if i < emits.len() {
            assert(more[i] == emits[i]);
            assert(frames[i] == framing::pieces(bytes)[i]);
        }
    }
}

/// Whether all the frames to be emitted are empty ones.
pub open spec fn signals(emits: Seq<Emit>) -> bool {
    forall|i: int|
        0 <= i < emits.len() ==> (#[trigger] emits[i]) == Emit::Dropped || emits[i]
            == Emit::Recovery
}

/// Seeing empty frames counts them and changes nothing else.
proof fn lemma_signals(model: Model, emits: Seq<Emit>, count: int)
    requires
        signals(emits),
        0 <= count <= emits.len(),
    ensures
        ({
            let seen = model.seeing_all(emits, count);
            seen == (Model { emits: Seq::empty(), dropped: seen.dropped, ..model })
        }),
    decreases count,
{
    if count > 0 {
        lemma_signals(model, emits, count - 1);
        assert(emits[count - 1] == Emit::Dropped || emits[count - 1] == Emit::Recovery);
    }
}

/// Where an Ark stands: the input that it has not used up, its state, and whether its last
/// output failed.
struct Stance {
    stub: Seq<u8>,
    state: State,
    resync: bool,
}

/// Whether nothing complete is in front of an Ark that the model is level with.
spec fn calm<'a>(pending: Seq<u8>, stance: Stance, host: Host<'a>) -> bool {
    &&& host.state == stance.state
    &&& host.resync == stance.resync
    &&& host.outcome == Outcome::Absorbed
    &&& emitted(host.outbox.bytes(), host.emits@)
    &&& host.partial is Boundary <==> pending.len() == 0
    &&& pending.len() <= host.next * MAX_STUB_SIZE
}

/// Whether a frame is in front of an Ark that the last step completed, the model being
/// ahead by that step. The second zero of a pair may follow it.
spec fn fronted<'a>(body: Seq<u8>, rest: Seq<u8>, stance: Stance, host: Host<'a>) -> bool {
    let model = ran(host.steps@, host.next - 1);
    let step = host.steps@[host.next - 1];
    &&& host.next > 0
    &&& puts_frame(model, step)
    &&& host@ == model.executed(step)
    &&& body.len() <= transport::MAX_FRAME_SIZE
    &&& zeros(rest)
    &&& rest.len() == if step is ResetPair {
        1int
    } else {
        0
    }
    &&& !(due(model, step) is Empty)
    &&& model.state == stance.state
    &&& model.resync == stance.resync
    &&& model.outcome == Outcome::Absorbed
    &&& model.emits == Seq::<Emit>::empty()
    &&& host.outbox.bytes() == Seq::<u8>::empty()
    &&& model.state == State::AwaitHello && !model.broken && meek(model, step) ==> refused(body)
}

/// Whether the model is ahead of an Ark by what the bytes in front of it make it do. An
/// unterminated frame does nothing. An empty one is a reset, any other one is the frame of
/// the last step.
spec fn faces<'a>(pending: Seq<u8>, stance: Stance, host: Host<'a>) -> bool {
    let found = framing::first_zero(pending);
    let rest = pending.skip(found + 1);
    if found >= pending.len() {
        calm(pending, stance, host)
    } else if found == 0 {
        &&& host.partial is Boundary
        &&& zeros(rest)
        &&& host.state == State::AwaitHello
        &&& host.resync == stance.resync
        &&& host.outcome == Outcome::Absorbed
        &&& emitted(host.outbox.bytes(), host.emits@)
    } else {
        fronted(pending.take(found), rest, stance, host)
    }
}

/// What the frame in front of an Ark comes to by the model, and what the model expects of
/// it.
proof fn lemma_front<'a>(body: Seq<u8>, rest: Seq<u8>, stance: Stance, host: Host<'a>)
    requires
        fronted(body, rest, stance, host),
    ensures
        ({
            let model = ran(host.steps@, host.next - 1);
            let step = host.steps@[host.next - 1];
            let came = canon(model.state, model.broken, due(model, step));
            let none = Seq::<Emit>::empty();
            &&& host.partial is Boundary
            &&& host.broken == model.broken
            &&& !(came is Empty)
            &&& rest.len() > 0 ==> came is Hello || came is Junk
            &&& host.state == if rest.len() > 0 {
                State::AwaitHello
            } else {
                state_by(came)
            }
            &&& host.outcome == match came {
                Kind::Request(id) => Outcome::Message(id),
                Kind::Garbage => Outcome::Undecodable,
                _ => Outcome::Absorbed,
            }
            &&& match came {
                Kind::Hello => {
                    &&& !host.resync
                    &&& host.emits@ == recovered(none, stance.resync).push(Emit::ArkHello)
                },
                Kind::Junk => if host.broken {
                    host.resync && host.emits@ == none
                } else {
                    &&& !host.resync
                    &&& host.emits@ == recovered(none, stance.resync).push(Emit::Dropped)
                },
                _ => host.resync == stance.resync && host.emits@ == none,
            }
        }),
{
    let model = ran(host.steps@, host.next - 1);
    let step = host.steps@[host.next - 1];
    lemma_executed(model, step);
    lemma_effect(noted(model, step), kind_for(model, step));
    if step is ResetPair {
        lemma_effect(model.delivered(Kind::Empty), Kind::Empty);
    }
    assert(host.emits@ == host@.emits && host.state == host@.state);
    assert(host@.partial == host.partial.stub());
}

/// Bytes that end a frame, with resets behind it.
proof fn lemma_complete(stub: Seq<u8>, body: Seq<u8>, rest: Seq<u8>)
    requires
        cobs::zero_free(stub),
        cobs::zero_free(body),
        zeros(rest),
    ensures
        ({
            let pending = stub + (body + seq![0u8] + rest);
            let found = framing::first_zero(pending);
            &&& found == stub.len() + body.len()
            &&& found < pending.len()
            &&& pending.take(found) == stub + body
            &&& pending.skip(found + 1) == rest
        }),
{
    let pending = stub + (body + seq![0u8] + rest);
    let at: int = (stub.len() + body.len()) as int;
    framing::lemma_first_zero(pending);
    assert(pending.take(at) =~= stub + body);
    assert(cobs::zero_free(pending.take(at)));
    assert(pending[at] == 0);
    assert(pending.skip(at + 1) =~= rest);
}

/// Bytes without a delimiter have none.
proof fn lemma_incomplete(bytes: Seq<u8>)
    ensures
        cobs::zero_free(bytes) <==> framing::first_zero(bytes) == bytes.len(),
{
    framing::lemma_first_zero(bytes);
    assert(bytes.take(bytes.len() as int) =~= bytes);
    if cobs::zero_free(bytes) {
        assert(cobs::zero_free(bytes.take(bytes.len() as int)));
    }
}

/// What the model makes of a frame in front of an Ark without a session.
proof fn lemma_refuses(model: Model, kind: Kind)
    requires
        model.state == State::Idle || model.state == State::AwaitHello,
        !model.session,
        !model.pending,
        signals(model.emits),
    ensures
        ({
            let after = model.delivered(kind);
            let completed = match (model.partial, kind) {
                (Stub::Boundary, kind) => kind,
                (Stub::Hello, Kind::Empty) => Kind::Hello,
                _ => Kind::Junk,
            };
            &&& !after.session
            &&& !after.pending
            &&& after.partial is Boundary
            &&& after.broken == model.broken
            &&& after.ack == model.ack
            &&& after.request == model.request
            &&& after.outcome == model.outcome
            &&& after.handshakes == model.handshakes
            &&& after.replies == model.replies
            &&& if completed is Empty {
                &&& after.state == State::AwaitHello
                &&& after.resync == model.resync
                &&& after.emits == model.emits
            } else if model.state == State::AwaitHello && !model.broken && completed is Hello {
                true
            } else if model.broken {
                &&& after.state == State::Idle
                &&& after.resync
                &&& after.emits == model.emits
            } else {
                &&& after.state == State::Idle
                &&& !after.resync
                &&& signals(after.emits)
                &&& after.emits.len() == model.emits.len() + if model.resync {
                    2int
                } else {
                    1
                }
            }
        }),
{
    reveal(Model::delivered);
}

/// What is wrong with the HostAck of a step.
pub open spec fn flaw_of(step: Step) -> Option<AckFlaw> {
    match step {
        Step::AckTampered => Some(AckFlaw::Tampered),
        Step::AckBadAuth => Some(AckFlaw::Auth),
        Step::AckBadSigner => Some(AckFlaw::Signer),
        Step::AckBadPayload => Some(AckFlaw::Payload),
        Step::AckBadEncap => Some(AckFlaw::Encap),
        _ => None,
    }
}

/// HostHello of a signing key and an encryption key that fails validation.
pub open spec fn keyless_hello(signer: VerifyingKey) -> Seq<u8> {
    envelope::cbor_list(
        seq![
            keys::xdsa_bytes(signer),
            Seq::new(keys::ENCRYPTION_KEY_SIZE as nat, |i: int| 0xffu8),
        ],
    )
}

/// Bytes of a frame to be repeated, none if there is no such frame.
pub open spec fn repeated(framed: Option<Vec<u8>>) -> Seq<u8> {
    match framed {
        Some(framed) => framed@,
        None => Seq::empty(),
    }
}

/// Bytes of a frame, if there is one.
pub open spec fn content(framed: Option<Vec<u8>>) -> Option<Seq<u8>> {
    match framed {
        Some(framed) => Some(framed@),
        None => None,
    }
}

/// Bytes of a frame made of arbitrary ones: zeros mapped to ones, and at least one
/// byte long.
pub open spec fn zeroless(junk: Seq<u8>) -> Seq<u8> {
    if junk.len() == 0 {
        seq![1u8]
    } else {
        junk.map_values(
            |byte: u8|
                if byte == 0 {
                    1u8
                } else {
                    byte
                },
        )
    }
}

/// A valid frame cut short, keeping at least one byte.
pub open spec fn shortened(valid: Seq<u8>, cut: u8) -> Seq<u8> {
    valid.take(
        if valid.len() <= 1 {
            1
        } else {
            1 + cut as int % (valid.len() - 1)
        },
    )
}

/// Whether an ArkHello that was received can be acked: its keys, the Ark's fresh key and
/// the context that it set up are kept.
#[verifier::opaque]
spec fn ackable(
    pending: Option<Pending>,
    identity: VerifyingKey,
    keys: HelloKeys,
    signed: Seq<u8>,
) -> bool {
    &&& pending matches Some(pending)
    &&& pending.keys == keys
    &&& handshake::verified_parts(signed, keys, identity) matches Some(parts)
    &&& pending.ark_crypto == parts.1
    &&& handshake::answer_context(signed, keys, identity) == Some(
        sealing::receiver_context(pending.receiver),
    )
    &&& sealing::receiver_sequence(pending.receiver) == 0
}

/// Whether bytes are one frame of a script with its delimiter.
#[verifier::opaque]
spec fn whole(framed: Seq<u8>) -> bool {
    &&& 2 <= framed.len() <= MAX_WHOLE_SIZE
    &&& framed.last() == 0
    &&& cobs::zero_free(framed.drop_last())
}

/// Whether the frames that are kept to be truncated or repeated are whole.
#[verifier::opaque]
spec fn repeatable(
    valid: Option<Vec<u8>>,
    hello: Option<(Vec<u8>, HelloKeys)>,
    ack: Option<Vec<u8>>,
    request: Option<Vec<u8>>,
) -> bool {
    &&& valid matches Some(valid) ==> whole(valid@.push(0))
    &&& hello matches Some((framed, _)) ==> whole(framed@)
    &&& ack matches Some(framed) ==> whole(framed@)
    &&& request matches Some(framed) ==> whole(framed@)
}

/// What a read of the Ark gets.
enum Fed {
    Bytes(Vec<u8>),
    Yield,
    Terminated,
}

/// Scripted host along with the model of the Ark it drives.
pub struct Host<'a> {
    steps: &'a [Step],
    next: usize,  // Steps executed so far
    limit: usize,  // Steps to be executed
    identity: VerifyingKey,  // The Ark's identity, verifying its hellos
    outbox: Outbox,  // Frames the Ark wrote
    bytes: Vec<u8>,  // Bytes of executed steps not yet read by the Ark
    chunk: usize,  // Most bytes a read hands over, zero for all
    broken: bool,  // Whether the Ark's writes fail
    resync: bool,  // Whether the Ark's last output failed
    state: State,  // State the Ark should be in
    partial: Partial,  // Unterminated frame in front of the Ark
    emits: Vec<Emit>,  // Frames the Ark should have emitted since the last check
    outcome: Outcome,  // What the Ark should surface for the last step
    awaiting: Option<HelloKeys>,  // Keys of the hello an ArkHello is expected for
    pending: Option<Pending>,  // ArkHello received, awaiting the host's ack
    session: Option<Session>,  // Live session on the host's side
    last_hello: Option<(Vec<u8>, HelloKeys)>,  // Last HostHello sent, framed
    last_ack: Option<Vec<u8>>,  // Last HostAck sent, framed
    last_request: Option<Vec<u8>>,  // Last request sent, framed
    last_valid: Option<Vec<u8>>,  // Last valid frame sent, delimiter stripped
    summary: Summary,
    apart: Ghost<bool>,  // Whether every key drawn in place of the right one was another
}

impl<'a> View for Host<'a> {
    type V = Model;

    closed spec fn view(&self) -> Model {
        Model {
            state: self.state,
            partial: self.partial.stub(),
            broken: self.broken,
            resync: self.resync,
            hello: self.last_hello is Some,
            ack: self.last_ack is Some,
            request: self.last_request is Some,
            valid: self.last_valid is Some,
            awaiting: self.awaiting is Some,
            pending: self.pending is Some,
            session: self.session is Some,
            outcome: self.outcome,
            emits: self.emits@,
            dropped: self.summary.dropped as nat,
            handshakes: self.summary.handshakes as nat,
            delivered: self.summary.delivered as nat,
            replies: self.summary.replies as nat,
        }
    }
}

impl<'a> Host<'a> {
    /// The frames kept to be repeated or truncated are whole, the outbox fails as the
    /// model says, and the script is not run past its end.
    pub closed spec fn wf(self) -> bool {
        &&& repeatable(self.last_valid, self.last_hello, self.last_ack, self.last_request)
        &&& self.broken == self.outbox.broken()
        &&& self.next <= self.limit <= MAX_STEPS
        &&& self.limit == run_length(self.steps@)
    }

    /// The script stands where it stood.
    spec fn paused(self, other: Host<'a>) -> bool {
        &&& other.wf()
        &&& other.steps == self.steps
        &&& other.next == self.next
        &&& other.limit == self.limit
    }

    /// The model follows the script up to the last step executed, which the driver
    /// may have reacted to already.
    spec fn follows(self) -> bool {
        let reached = reached(self.steps@, self.next as int);
        &&& self.wf()
        &&& self@ == reached || self@ == reached.answered()
    }

    /// Few messages were delivered.
    proof fn lemma_delivered(self)
        requires
            self.follows(),
        ensures
            self@.delivered < usize::MAX,
    {
        lemma_weight(self.steps@, self.next as int);
        lemma_answer_weight(reached(self.steps@, self.next as int));
    }

    /// The host once a message of the Ark's was counted, which nothing is expected behind.
    spec fn heard(self) -> Host<'a> {
        Host {
            outcome: Outcome::Absorbed,
            summary: Summary {
                delivered: (self.summary.delivered + 1) as usize,
                ..self.summary
            },
            ..self
        }
    }

    /// Keys of the hello that a frame makes up along with the unterminated one in front of
    /// it.
    spec fn completed(self, frame: Frame) -> Option<HelloKeys> {
        match (self.partial, frame) {
            (Partial::Hello(keys), Frame::Empty) => Some(keys),
            (Partial::Boundary, Frame::Hello(keys)) => Some(keys),
            _ => None,
        }
    }

    /// A frame arrives at the Ark, and the model makes its transition. An answered hello's
    /// keys are those that its ArkHello is awaited for, and what is not forgotten stays.
    #[verifier::opaque]
    pub closed spec fn delivered_to(self, frame: Frame, after: Host<'a>) -> bool {
        &&& after == (Host {
            state: after.state,
            partial: Partial::Boundary,
            resync: after.resync,
            emits: after.emits,
            outcome: after.outcome,
            awaiting: after.awaiting,
            pending: after.pending,
            session: after.session,
            ..self
        })
        &&& after@ == self@.delivered(frame.kind())
        &&& after.session is Some ==> after.session == self.session
        &&& after.pending is Some ==> after.pending == self.pending
        &&& after.awaiting == if self.state == State::AwaitHello && after.state
            == State::AwaitAck {
            self.completed(frame)
        } else {
            self.awaiting
        }
    }

    /// A frame is put in front of the Ark, its bytes being queued.
    spec fn fronts(self, frame: Frame, after: Host<'a>) -> bool {
        self.delivered_to(frame, Host { bytes: self.bytes, ..after })
    }

    /// A read fails, which aborts a handshake in progress but leaves a session untouched.
    spec fn cut_short(self, outcome: Outcome, after: Host<'a>) -> bool {
        after == if self.state == State::AwaitHello || self.state == State::AwaitAck {
            Host { session: None, pending: None, state: State::Idle, outcome, ..self }
        } else {
            Host { outcome, ..self }
        }
    }

    /// What a frame that arrives leaves alone.
    proof fn lemma_delivered_to(self, frame: Frame, after: Host<'a>)
        requires
            self.wf(),
            self.delivered_to(frame, after),
        ensures
            after@ == self@.delivered(frame.kind()),
            after.bytes == self.bytes,
            after.outbox == self.outbox,
            after.session is Some ==> after.session == self.session,
            self.paused(after),
    {
        reveal(Host::delivered_to);
        reveal(Model::delivered);
    }

    /// The last valid frame is the one queued, its delimiter stripped.
    spec fn recorded(self, framed: Seq<u8>) -> bool {
        self.last_valid matches Some(valid) && valid@ == framed.drop_last()
    }

    /// Bytes queued behind those that were there before.
    spec fn added(self, before: Host<'a>) -> Seq<u8> {
        self.bytes@.skip(before.bytes@.len() as int)
    }

    /// A valid HostHello of fresh keys is queued and kept.
    spec fn queued_hello(self, bytes: Seq<u8>) -> bool {
        &&& self.last_hello matches Some((framed, keys))
        &&& framed@ == bytes
        &&& bytes == super::packet_frame(keys.pair())
        &&& readable(cobs::cobs_encoded(keys.pair()))
        &&& self.recorded(bytes)
    }

    /// The HostAck for an ArkHello is queued and kept, opening a session.
    spec fn queued_ack(
        self,
        before: Host<'a>,
        pending: Pending,
        ack: Seq<u8>,
        session: Session,
    ) -> bool {
        let bytes = self.added(before);
        let noted = Host {
            pending: None,
            session: Some(session),
            last_ack: self.last_ack,
            last_valid: self.last_valid,
            ..before
        };
        &&& handshake::acknowledged(
            session.sender,
            ack,
            pending.keys.signer,
            before.identity,
            pending.ark_crypto,
            None,
        )
        &&& session.receiver == pending.receiver
        &&& bytes == super::packet_frame(ack)
        &&& self.last_ack matches Some(framed) && framed@ == bytes
        &&& self.recorded(bytes)
        &&& noted.fronts(Frame::Ack, self)
    }

    /// Junk made of a text is queued.
    spec fn queued_text(self, before: Host<'a>, text: Seq<char>) -> bool {
        self.added(before) == super::text_frame(text) && before.fronts(Frame::Junk, self)
    }

    /// A frame is queued again that the Ark refuses, if there is one.
    spec fn queued_again(self, before: Host<'a>, framed: Option<Seq<u8>>) -> bool {
        match framed {
            Some(framed) => self.added(before) == framed && before.fronts(Frame::Junk, self),
            None => self == before,
        }
    }

    /// A flawed HostAck made of the keys given is queued.
    spec fn queued_flawed(
        self,
        before: Host<'a>,
        pending: Pending,
        flaw: AckFlaw,
        sender: SealingContext,
        other: EncryptionKey,
        stranger: SigningKey,
    ) -> bool {
        &&& Host { apart: self.apart, ..before }.fronts(Frame::Junk, self)
        &&& self.apart@ == (before.apart@ && estranged(pending, flaw, other, stranger))
        &&& exists|ack: Seq<u8>|
            {
                &&& #[trigger] flawed(
                    pending,
                    before.identity,
                    flaw,
                    sender,
                    other,
                    stranger,
                    ack,
                )
                &&& self.added(before) == super::packet_frame(ack)
            }
    }

    /// A flawed HostAck is queued, or junk without an ArkHello to answer.
    spec fn queued_bad_ack(self, before: Host<'a>, flaw: AckFlaw) -> bool {
        match before.pending {
            Some(pending) => exists|
                sender: SealingContext,
                other: EncryptionKey,
                stranger: SigningKey,
            |
                #[trigger]
                self.queued_flawed(before, pending, flaw, sender, other, stranger),
            None => self.queued_text(before, "bad ack without a pending ark hello"@),
        }
    }

    /// A request sealed in a session is queued and kept, which leaves another session to go
    /// on with.
    spec fn queued_request(
        self,
        before: Host<'a>,
        session: Session,
        id: u64,
        next: Session,
    ) -> bool {
        let bytes = self.added(before);
        let noted = Host {
            session: Some(next),
            last_request: self.last_request,
            last_valid: self.last_valid,
            ..before
        };
        &&& session.sends(next, super::tagged(id), false, bytes)
        &&& self.last_request matches Some(framed) && framed@ == bytes
        &&& self.recorded(bytes)
        &&& noted.fronts(Frame::Request(id), self)
    }

    /// A request sealed in a session is queued with a flipped byte, which leaves another
    /// session to go on with.
    spec fn queued_tampered(self, before: Host<'a>, session: Session, next: Session) -> bool {
        let packet = session.next_packet(super::tagged(0));
        &&& session.advanced(next)
        &&& self.added(before) == super::packet_frame(super::tampered(packet))
        &&& Host { session: Some(next), ..before }.fronts(Frame::Junk, self)
    }

    /// A message sealed in a session that stands for no number is queued, which leaves
    /// another session to go on with.
    spec fn queued_garbage(self, before: Host<'a>, session: Session, next: Session) -> bool {
        let bytes = self.added(before);
        &&& session.sends(next, seq![7u8], false, bytes)
        &&& self.recorded(bytes)
        &&& Host { session: Some(next), last_valid: self.last_valid, ..before }.fronts(
            Frame::Garbage,
            self,
        )
    }

    /// The bytes that a step stands for are queued, the host keeps what later steps repeat,
    /// and nothing else changes but by the frames that the bytes make up.
    #[verifier::opaque]
    spec fn queued(self, before: Host<'a>, step: Step) -> bool {
        match step {
            Step::Reset => self.added(before) == seq![0u8] && before.fronts(Frame::Empty, self),
            Step::ResetPair => {
                &&& self.added(before) == seq![0u8, 0u8]
                &&& exists|once: Host<'a>|
                    #[trigger] before.delivered_to(Frame::Empty, once) && once.fronts(
                        Frame::Empty,
                        self,
                    )
            },
            Step::Hello => {
                &&& self.queued_hello(self.added(before))
                &&& self.last_hello matches Some((_, keys)) && Host {
                    last_hello: self.last_hello,
                    last_valid: self.last_valid,
                    ..before
                }.fronts(Frame::Hello(keys), self)
            },
            Step::HelloReplay => match before.last_hello {
                Some((framed, keys)) => {
                    &&& self.added(before) == framed@
                    &&& before.fronts(Frame::Hello(keys), self)
                },
                None => self == before,
            },
            Step::HelloBadKey => {
                &&& before.fronts(Frame::Junk, self)
                &&& exists|signer: VerifyingKey|
                    self.added(before) == super::packet_frame(#[trigger] keyless_hello(signer))
            },
            Step::Ack => match before.pending {
                Some(pending) => exists|ack: Seq<u8>, session: Session| #[trigger]
                    self.queued_ack(before, pending, ack, session),
                None => self.queued_text(before, "ack without a pending ark hello"@),
            },
            Step::AckReplay => self.queued_again(before, content(before.last_ack)),
            Step::AckTampered
            | Step::AckBadAuth
            | Step::AckBadSigner
            | Step::AckBadPayload
            | Step::AckBadEncap => {
                flaw_of(step) matches Some(flaw) && self.queued_bad_ack(before, flaw)
            },
            Step::Request(id) => match before.session {
                Some(session) => exists|next: Session| #[trigger]
                    self.queued_request(before, session, id as u64, next),
                None => self.queued_text(before, "request without a session"@),
            },
            Step::RequestReplay => self.queued_again(before, content(before.last_request)),
            Step::RequestTampered => match before.session {
                Some(session) => exists|next: Session| #[trigger]
                    self.queued_tampered(before, session, next),
                None => self.queued_text(before, "tampered request without a session"@),
            },
            Step::Garbage => match before.session {
                Some(session) => exists|next: Session| #[trigger]
                    self.queued_garbage(before, session, next),
                None => self.queued_text(before, "garbage without a session"@),
            },
            Step::Junk(junk) => self.queued_again(before, Some(zeroless(junk@).push(0))),
            Step::Truncated(cut) => self.queued_again(
                before,
                match before.last_valid {
                    Some(valid) => Some(shortened(valid@, cut).push(0)),
                    None => None,
                },
            ),
            Step::Partial => exists|keys: HelloKeys|
                {
                    &&& self.added(before) == #[trigger] cobs::cobs_encoded(keys.pair())
                    &&& readable(self.added(before))
                    &&& self == (Host {
                        bytes: self.bytes,
                        partial: if before.partial is Boundary {
                            Partial::Hello(keys)
                        } else {
                            Partial::Junk
                        },
                        ..before
                    })
                },
            Step::Break => {
                &&& self == (Host { broken: true, outbox: self.outbox, ..before })
                &&& self.outbox.broken()
            },
            Step::Heal => {
                &&& self == (Host { broken: false, outbox: self.outbox, ..before })
                &&& !self.outbox.broken()
            },
            Step::Chunk(size) => self == (Host { chunk: size as usize, ..before }),
            Step::Yield => self == before,
        }
    }

    /// The session of the host has sealed no more messages than there were steps, and there
    /// is nothing of a session or handshake while a hello is awaited.
    spec fn sound(self) -> bool {
        &&& self.session matches Some(session) ==> sealing::sender_sequence(session.sender)
            <= self.next
        &&& self.state == State::AwaitHello ==> self.pending is None && self.session is None
    }

    /// The model is ahead of the Ark by what is in front of it.
    #[verifier::opaque]
    spec fn poised(self, stance: Stance) -> bool {
        self.sound() && faces(stance.stub + self.bytes@, stance, self)
    }

    /// A step is executed: the model made its transitions, and the bytes are queued
    /// behind those that were.
    spec fn took(self, before: Host<'a>, step: Step) -> bool {
        &&& self@ == before@.executed(step)
        &&& self.bytes@ == before.bytes@ + self.added(before)
        &&& self.queued(before, step)
        &&& before.shaped(step, self.added(before))
        &&& self.outbox.bytes() == before.outbox.bytes()
    }

    /// Shape of the bytes that a step queues: at most one frame. Without an ArkHello to
    /// answer and without a session it is too short to be a hello, unless it is one.
    #[verifier::opaque]
    spec fn shaped(self, step: Step, bytes: Seq<u8>) -> bool {
        match step {
            Step::Hello | Step::HelloBadKey => whole(bytes),
            Step::HelloReplay | Step::AckReplay | Step::RequestReplay => bytes.len() == 0
                || whole(bytes),
            Step::Truncated(_) => bytes.len() == 0 || whole(bytes) && bytes.len() <= 257,
            Step::Partial => cobs::zero_free(bytes) && 0 < bytes.len() <= MAX_STUB_SIZE,
            Step::Ack
            | Step::AckTampered
            | Step::AckBadAuth
            | Step::AckBadSigner
            | Step::AckBadPayload
            | Step::AckBadEncap
            | Step::Request(_)
            | Step::RequestTampered
            | Step::Garbage => {
                &&& whole(bytes)
                &&& self.pending is None && self.session is None ==> bytes.len()
                    <= keys::VERIFYING_KEY_SIZE
            },
            _ => true,
        }
    }

    /// Number of the reply that a frame holds in the host's session, if it holds one.
    #[verifier::opaque]
    spec fn reply_in(self, frame: Seq<u8>) -> Option<u64> {
        match (cobs::cobs_decoded(frame), self.session) {
            (Ok(packet), Some(session)) => match session.message_in(packet) {
                Some(message) => super::tag_of(message),
                None => None,
            },
            _ => None,
        }
    }

    /// Keys of the awaited ArkHello and the signed message in it, if a frame holds one
    /// that answers them under the Ark's identity.
    #[verifier::opaque]
    spec fn hello_in(self, frame: Seq<u8>) -> Option<(HelloKeys, Seq<u8>)> {
        match (cobs::cobs_decoded(frame), self.awaiting) {
            (Ok(packet), Some(keys)) => match handshake::answer_read(packet, keys) {
                Some((signed, _)) => if handshake::answer_context(signed, keys, self.identity)
                    is Some {
                    Some((keys, signed))
                } else {
                    None
                },
                None => None,
            },
            _ => None,
        }
    }

    /// A frame is one that the Ark was to emit.
    spec fn shows(self, frame: Seq<u8>, emit: Emit) -> bool {
        match emit {
            Emit::Dropped | Emit::Recovery => frame.len() == 0,
            Emit::ArkHello => self.hello_in(frame) is Some,
            Emit::Reply(id) => self.reply_in(frame) == Some(id),
        }
    }

    /// A frame is not the one that the Ark was to emit. A reply was tried in the host's
    /// session, where what the Ark sealed at its position would have opened.
    spec fn unseen(self, frame: Seq<u8>, emit: Emit) -> bool {
        &&& !self.shows(frame, emit)
        &&& emit is Reply ==> match (cobs::cobs_decoded(frame), self.session) {
            (Ok(packet), Some(session)) => session.reads_back(packet),
            _ => true,
        }
    }

    /// A frame that the Ark was to emit is taken in and counted. An ArkHello that is still
    /// awaited can be acked, and a reply moves the session on.
    #[verifier::opaque]
    spec fn saw(self, frame: Seq<u8>, emit: Emit, after: Host<'a>) -> bool {
        &&& after == (Host {
            summary: after.summary,
            awaiting: after.awaiting,
            pending: after.pending,
            session: after.session,
            ..self
        })
        &&& after@ == self@.seeing(emit)
        &&& self.shows(frame, emit)
        &&& match emit {
            Emit::Dropped | Emit::Recovery => {
                &&& after.awaiting == self.awaiting
                &&& after.pending == self.pending
                &&& after.session == self.session
            },
            Emit::ArkHello => {
                &&& after.session == self.session
                &&& self@.state == State::AwaitAck ==> (self.hello_in(frame) matches Some(
                    (keys, signed),
                ) && ackable(after.pending, self.identity, keys, signed))
                &&& self@.state != State::AwaitAck ==> after.pending == self.pending
            },
            Emit::Reply(_) => {
                &&& after.awaiting == self.awaiting
                &&& after.pending == self.pending
                &&& self.session matches Some(session)
                &&& after.session matches Some(next)
                &&& session.received(next)
            },
        }
    }

    /// The session goes on sealing where it stood.
    spec fn reseals(self, after: Host<'a>) -> bool {
        after.session matches Some(next) ==> (self.session matches Some(session)
            && sealing::sender_sequence(next.sender) == sealing::sender_sequence(session.sender))
    }

    /// Frames that the Ark wrote since the last look.
    spec fn written(self) -> Seq<Seq<u8>> {
        framing::pieces(self.outbox.bytes())
    }

    /// The host after each of the first frames that the Ark wrote, all of them being what
    /// the Ark was to emit.
    spec fn sees_all(self, hosts: Seq<Host<'a>>) -> bool {
        &&& 1 <= hosts.len() <= self.emits@.len() + 1
        &&& hosts[0] == (Host { outbox: hosts[0].outbox, emits: hosts[0].emits, ..self })
        &&& hosts[0].outbox.bytes() == Seq::<u8>::empty()
        &&& hosts[0].emits@ == Seq::<Emit>::empty()
        &&& forall|j: int|
            0 <= j < hosts.len() - 1 ==> (#[trigger] hosts[j]).saw(
                self.written()[j],
                self.emits@[j],
                hosts[j + 1],
            )
    }

    /// Nothing was left to be surfaced, the Ark emitted exactly what it was to emit, and
    /// all of it is taken in.
    #[verifier::opaque]
    spec fn ingests(self, after: Host<'a>) -> bool {
        &&& self.outcome == Outcome::Absorbed
        &&& super::terminated(self.outbox.bytes())
        &&& self.written().len() == self.emits@.len()
        &&& exists|hosts: Seq<Host<'a>>| #[trigger]
            self.sees_all(hosts) && hosts.len() == self.emits@.len() + 1 && hosts.last() == after
    }

    /// Something was left to be surfaced, or the Ark emitted something else than it was to
    /// emit: a frame too many or too few, or one that is not the one expected.
    #[verifier::opaque]
    spec fn misread(self, divergence: Divergence) -> bool {
        if self.outcome != Outcome::Absorbed {
            divergence == Divergence::Surfaced
        } else {
            &&& divergence == Divergence::Emitted
            &&& {
                ||| !super::terminated(self.outbox.bytes())
                ||| self.written().len() != self.emits@.len()
                ||| exists|hosts: Seq<Host<'a>>| #[trigger]
                    self.sees_all(hosts) && hosts.len() <= self.emits@.len()
                        && hosts.last().unseen(
                        self.written()[hosts.len() - 1],
                        self.emits@[hosts.len() - 1],
                    )
            }
        }
    }

    /// A message of the Ark's is not opened: an ArkHello by the keys that it is awaited for,
    /// or a reply in the host's session.
    #[verifier::opaque]
    spec fn deaf(self) -> bool {
        &&& self.outcome == Outcome::Absorbed
        &&& exists|hosts: Seq<Host<'a>>|
            {
                let at = hosts.len() - 1;
                &&& #[trigger] self.sees_all(hosts)
                &&& hosts.len() <= self.emits@.len()
                &&& self.emits@[at] == Emit::ArkHello || self.emits@[at] is Reply
                &&& hosts.last().unseen(self.written()[at], self.emits@[at])
            }
    }

    /// The host comes to a message of the Ark's that it does not open, before anything
    /// else is put in front of the Ark.
    #[verifier::opaque]
    spec fn misses(self) -> bool {
        &&& self.bytes@.len() == 0
        &&& exists|hosts: Seq<Host<'a>>|
            {
                &&& #[trigger] self.skips(hosts)
                &&& hosts.last().bytes@.len() == 0
                &&& hosts.last().deaf()
            }
    }

    /// An ArkHello is not opened by the keys that it is awaited for.
    #[verifier::opaque]
    spec fn deaf_to_hello(self) -> bool {
        exists|hosts: Seq<Host<'a>>|
            {
                let at = hosts.len() - 1;
                &&& #[trigger] self.sees_all(hosts)
                &&& hosts.len() <= self.emits@.len()
                &&& self.emits@[at] == Emit::ArkHello
                &&& hosts.last().hello_in(self.written()[at]) is None
            }
    }

    /// The host comes to an ArkHello that it does not open, before anything else is put in
    /// front of the Ark.
    #[verifier::opaque]
    spec fn misses_hello(self) -> bool {
        exists|hosts: Seq<Host<'a>>| #[trigger]
            self.skips(hosts) && hosts.last().deaf_to_hello()
    }

    /// One more frame is taken in.
    proof fn lemma_sees_more(self, hosts: Seq<Host<'a>>, next: Host<'a>)
        requires
            self.sees_all(hosts),
            hosts.len() <= self.emits@.len(),
            hosts.last().saw(
                self.written()[hosts.len() - 1],
                self.emits@[hosts.len() - 1],
                next,
            ),
        ensures
            self.sees_all(hosts.push(next)),
    {
        let longer = hosts.push(next);
        assert forall|j: int| 0 <= j < longer.len() - 1 implies (#[trigger] longer[j]).saw(
            self.written()[j],
            self.emits@[j],
            longer[j + 1],
        ) by {
            if j < hosts.len() - 1 {
                assert(hosts[j].saw(self.written()[j], self.emits@[j], hosts[j + 1]));
            }
        }
    }

    /// The step that the script stands at is executed, what the Ark emitted having been
    /// taken in.
    spec fn moves(self, seen: Host<'a>, after: Host<'a>) -> bool {
        exists|made: Host<'a>|
            {
                &&& #[trigger] made.took(seen, self.steps@[self.next as int])
                &&& !(self.steps@[self.next as int] is Yield)
                &&& seen@ == ran(self.steps@, self.next as int)
                &&& seen.wf()
                &&& seen.paused(made)
                &&& after == (Host { next: (made.next + 1) as usize, ..made })
            }
    }

    /// The script goes one step further, once what the Ark emitted was taken in. A read
    /// fails at its end and where it yields. It diverges from the model where the Ark
    /// emitted something else than it was to emit, and cannot go on where a message is to be
    /// sealed in a session that can seal no more.
    #[verifier::opaque]
    spec fn advances(self, after: Host<'a>, advanced: Result<Option<Fed>, Divergence>) -> bool {
        match advanced {
            Err(divergence) => {
                ||| self.misread(divergence)
                ||| divergence == Divergence::Setup && self.next < self.limit && exists|
                    seen: Host<'a>,
                |
                    #[trigger] self.ingests(seen) && seen.exhausted()
            },
            Ok(fed) => exists|seen: Host<'a>|
                {
                    &&& #[trigger] self.ingests(seen)
                    &&& match fed {
                        None => self.next < self.limit && self.moves(seen, after),
                        Some(Fed::Yield) => {
                            &&& self.next < self.limit
                            &&& self.steps@[self.next as int] is Yield
                            &&& seen.cut_short(
                                Outcome::Yield,
                                Host { next: self.next, ..after },
                            )
                            &&& after.next == self.next + 1
                        },
                        Some(Fed::Terminated) => {
                            &&& self.next == self.limit
                            &&& seen.cut_short(Outcome::Terminated, after)
                        },
                        Some(Fed::Bytes(_)) => false,
                    }
                },
        }
    }

    /// The host after each of a number of steps that put nothing in front of the Ark.
    #[verifier::opaque]
    spec fn skips(self, hosts: Seq<Host<'a>>) -> bool {
        &&& hosts.len() > 0
        &&& hosts[0] == self
        &&& forall|j: int|
            0 <= j < hosts.len() - 1 ==> (#[trigger] hosts[j]).bytes@.len() == 0
                && hosts[j].advances(hosts[j + 1], Ok(None))
    }

    /// One more step is executed.
    proof fn lemma_skips_on(self, hosts: Seq<Host<'a>>, next: Host<'a>)
        requires
            self.skips(hosts),
            hosts.last().bytes@.len() == 0,
            hosts.last().advances(next, Ok(None)),
        ensures
            self.skips(hosts.push(next)),
    {
        reveal(Host::skips);
        let longer = hosts.push(next);
        assert forall|j: int| 0 <= j < longer.len() - 1 implies (#[trigger] longer[j]).bytes@.len()
            == 0 && longer[j].advances(longer[j + 1], Ok(None)) by {
            if j < hosts.len() - 1 {
                assert(hosts[j].bytes@.len() == 0);
            }
        }
    }

    /// A read of the Ark gets bytes that are in front of it, the script having moved on to
    /// them, or fails where the script ends or yields, or diverges from the model on the
    /// way.
    #[verifier::opaque]
    spec fn feeds(self, after: Host<'a>, fed: Result<Fed, Divergence>) -> bool {
        exists|hosts: Seq<Host<'a>>|
            {
                &&& #[trigger] self.skips(hosts)
                &&& match fed {
                    Ok(Fed::Bytes(bytes)) => {
                        &&& bytes@.len() > 0
                        &&& bytes@ + after.bytes@ == hosts.last().bytes@
                        &&& after == (Host { bytes: after.bytes, ..hosts.last() })
                    },
                    Ok(fed) => {
                        &&& hosts.last().bytes@.len() == 0
                        &&& hosts.last().advances(after, Ok(Some(fed)))
                    },
                    Err(divergence) => {
                        &&& hosts.last().bytes@.len() == 0
                        &&& hosts.last().advances(after, Err(divergence))
                    },
                }
            }
    }

    /// The session of the host has sealed all the messages that it can.
    spec fn exhausted(self) -> bool {
        self.session matches Some(session) && sealing::sender_sequence(session.sender) > u64::MAX
    }

    /// Host in front of an Ark without a session, the script at its start.
    fn new(steps: &'a [Step], identity: VerifyingKey) -> (host: Host<'a>)
        ensures
            host.follows(),
            host.steps == steps,
            host.next == 0,
            host.bytes@.len() == 0,
            host.poised(Stance { stub: Seq::empty(), state: State::Idle, resync: false }),
            host@ == Model::start(),
            host.identity == identity,
            host.outbox.bytes() == Seq::<u8>::empty(),
            host.apart@,
    {
        let limit: usize = if steps.len() < MAX_STEPS {
            steps.len()
        } else {
            MAX_STEPS
        };
        proof {
            reveal(repeatable);
        }
        let host = Host {
            steps,
            next: 0,
            limit,
            identity,
            outbox: Outbox::new(),
            bytes: Vec::new(),
            chunk: 0,
            broken: false,
            resync: false,
            state: State::Idle,
            partial: Partial::Boundary,
            emits: Vec::new(),
            outcome: Outcome::Absorbed,
            awaiting: None,
            pending: None,
            session: None,
            last_hello: None,
            last_ack: None,
            last_request: None,
            last_valid: None,
            summary: Summary::default(),
            apart: Ghost(true),
        };
        proof {
            assert(host@.emits =~= Seq::<Emit>::empty());
            reveal(Host::poised);
            framing::lemma_first_zero(Seq::<u8>::empty());
            lemma_emitted_none();
            assert(Seq::<u8>::empty() + host.bytes@ =~= Seq::<u8>::empty());
        }
        host
    }

    /// Executes one step, queuing its bytes for the Ark and applying the model's
    /// transitions for the frames they make up. It fails only if a message is to be
    /// sealed in a session that can seal no more.
    #[verifier::spinoff_prover]
    #[verifier::rlimit(30)]
    fn execute(&mut self, step: &Step) -> (executed: Result<(), Divergence>)
        requires
            old(self).wf(),
            !(step is Yield),
        ensures
            match executed {
                Ok(_) => final(self).took(*old(self), *step),
                Err(divergence) => {
                    &&& divergence == Divergence::Setup
                    &&& old(self).exhausted()
                    &&& step is Request || step is RequestTampered || step is Garbage
                },
            },
            old(self).paused(*final(self)),
    {
        match step {
            Step::Reset => self.reset(),
            Step::ResetPair => self.reset_pair(),
            Step::Hello => self.hello(),
            Step::HelloReplay => self.replay_hello(),
            Step::HelloBadKey => self.bad_hello(),
            Step::Ack => self.ack(),
            Step::AckReplay => self.replay_ack(),
            Step::AckTampered => self.bad_ack(step, AckFlaw::Tampered),
            Step::AckBadAuth => self.bad_ack(step, AckFlaw::Auth),
            Step::AckBadSigner => self.bad_ack(step, AckFlaw::Signer),
            Step::AckBadPayload => self.bad_ack(step, AckFlaw::Payload),
            Step::AckBadEncap => self.bad_ack(step, AckFlaw::Encap),
            Step::Request(id) => return self.request(*id),
            Step::RequestReplay => self.replay_request(),
            Step::RequestTampered => return self.tampered_request(),
            Step::Garbage => return self.garbage(),
            Step::Junk(junk) => self.junk_bytes(step, junk),
            Step::Truncated(cut) => self.truncated(*cut),
            Step::Partial => self.partial_hello(),
            Step::Yield => {},
            Step::Break => self.set_broken(step, true),
            Step::Heal => self.set_broken(step, false),
            Step::Chunk(size) => self.set_chunk(*size),
        }
        Ok(())
    }

    /// What a host is like once what the Ark emitted was looked at, nothing complete being
    /// in front of the Ark.
    spec fn looked(self, stance: Stance) -> bool {
        &&& self.poised(stance)
        &&& self.bytes@.len() == 0
        &&& cobs::zero_free(stance.stub)
        &&& self.outbox.bytes() == Seq::<u8>::empty()
        &&& self.emits@ == Seq::<Emit>::empty()
        &&& self@ == ran(self.steps@, self.next as int)
        &&& self.next < self.limit
        &&& self.wf()
    }

    /// The host moved from one step of the script to the next.
    spec fn stepped(self, after: Host<'a>, moved: Host<'a>) -> bool {
        let step = self.steps@[self.next as int];
        &&& after.took(self, step)
        &&& self.paused(after)
        &&& moved == (Host { next: (after.next + 1) as usize, ..after })
        &&& !(step is Yield)
        &&& step_fits(self@, step)
    }

    /// What is in front of the Ark before a step, and what the host knows then.
    #[verifier::spinoff_prover]
    #[verifier::rlimit(30)]
    proof fn lemma_looked(self, stance: Stance)
        requires
            self.looked(stance),
        ensures
            stance.stub.len() <= MAX_STEPS * MAX_STUB_SIZE,
            self@.partial is Boundary <==> stance.stub.len() == 0,
            self@.state == stance.state,
            self@.resync == stance.resync,
            self@.outcome == Outcome::Absorbed,
            self@.emits == Seq::<Emit>::empty(),
            self.sound(),
    {
        reveal(Host::poised);
        assert(stance.stub + self.bytes@ =~= stance.stub);
        lemma_incomplete(stance.stub);
        assert(self.next * MAX_STUB_SIZE <= MAX_STEPS * MAX_STUB_SIZE);
        assert(self.partial.stub() == self@.partial);
    }

    /// A step keeps the session within bounds.
    #[verifier::spinoff_prover]
    #[verifier::rlimit(30)]
    proof fn lemma_stays_sound(self, after: Host<'a>, moved: Host<'a>)
        requires
            self.sound(),
            self.stepped(after, moved),
            self.next < self.limit,
            self.wf(),
        ensures
            moved.sound(),
    {
        let step = self.steps@[self.next as int];
        let model = self@;
        reveal(Host::queued);
        reveal(Host::delivered_to);
        lemma_executed(model, step);
        if puts_frame(model, step) {
            reveal(Model::delivered);
            lemma_effect(noted(model, step), kind_for(model, step));
            lemma_effect(model.delivered(Kind::Empty), Kind::Empty);
        }
        assert(moved@ == model.executed(step));
    }

    /// The shape of the bytes that a step puts in front of the Ark.
    #[verifier::spinoff_prover]
    #[verifier::rlimit(30)]
    proof fn lemma_step_bytes(self, after: Host<'a>, step: Step)
        requires
            self.wf(),
            self.bytes@.len() == 0,
            self.sound(),
            after.took(self, step),
            !(step is Yield),
        ensures
            match step {
                Step::Reset => after.bytes@ == seq![0u8],
                Step::ResetPair => after.bytes@ == seq![0u8, 0u8],
                Step::Junk(junk) => after.bytes@ == zeroless(junk@).push(0),
                Step::Partial => {
                    &&& cobs::zero_free(after.bytes@)
                    &&& 0 < after.bytes@.len() <= MAX_STUB_SIZE
                },
                _ => if puts_frame(self@, step) {
                    &&& whole(after.bytes@)
                    &&& self@.state == State::AwaitHello && !self@.broken && meek(self@, step)
                        ==> after.bytes@.len() <= keys::VERIFYING_KEY_SIZE
                } else {
                    after.bytes@.len() == 0
                },
            },
    {
        reveal(meek);
        reveal(Host::queued);
        reveal(Host::shaped);
        reveal(repeatable);
        assert(after.added(self) =~= after.bytes@);
        assert(whole(after.bytes@) ==> after.bytes@.len() > 0) by {
            reveal(whole);
        }
    }

    /// A step that completes no frame leaves the Ark where it stands.
    #[verifier::spinoff_prover]
    #[verifier::rlimit(30)]
    proof fn lemma_stub_poised(self, after: Host<'a>, moved: Host<'a>, stance: Stance)
        requires
            self.looked(stance),
            self.stepped(after, moved),
            !puts_frame(self@, self.steps@[self.next as int]),
        ensures
            moved.poised(stance),
    {
        let step = self.steps@[self.next as int];
        self.lemma_looked(stance);
        self.lemma_stays_sound(after, moved);
        self.lemma_step_bytes(after, step);
        lemma_executed(self@, step);
        reveal(Host::poised);
        let longer = stance.stub + moved.bytes@;
        assert(cobs::zero_free(longer));
        lemma_incomplete(longer);
        lemma_emitted_none();
        assert(moved@ == self@.executed(step));
        assert(moved.emits@ == moved@.emits);
        assert(moved.partial.stub() == moved@.partial);
        assert(moved.next * MAX_STUB_SIZE == self.next * MAX_STUB_SIZE + MAX_STUB_SIZE);
        assert(stance.stub + self.bytes@ =~= stance.stub);
        lemma_incomplete(stance.stub);
    }

    /// A lone reset, or a pair of them, is in front of an Ark between two frames.
    #[verifier::spinoff_prover]
    #[verifier::rlimit(30)]
    proof fn lemma_reset_poised(self, after: Host<'a>, moved: Host<'a>, stance: Stance)
        requires
            self.looked(stance),
            self.stepped(after, moved),
            self.steps@[self.next as int] is Reset || self.steps@[self.next as int] is ResetPair,
            self@.partial is Boundary,
        ensures
            moved.poised(stance),
    {
        let step = self.steps@[self.next as int];
        let none = Seq::<u8>::empty();
        let rest = if step is Reset {
            none
        } else {
            seq![0u8]
        };
        self.lemma_looked(stance);
        self.lemma_stays_sound(after, moved);
        self.lemma_step_bytes(after, step);
        lemma_executed(self@, step);
        lemma_effect(self@, Kind::Empty);
        lemma_effect(self@.delivered(Kind::Empty), Kind::Empty);
        assert(stance.stub + moved.bytes@ =~= stance.stub + (none + seq![0u8] + rest));
        lemma_complete(stance.stub, none, rest);
        lemma_emitted_none();
        assert(moved@ == self@.executed(step));
        assert(moved.emits@ == moved@.emits);
        assert(moved.partial.stub() == moved@.partial);
        reveal(Host::poised);
    }

    /// A frame that a step completes is in front of the Ark.
    #[verifier::spinoff_prover]
    #[verifier::rlimit(30)]
    proof fn lemma_frame_poised(self, after: Host<'a>, moved: Host<'a>, stance: Stance)
        requires
            self.looked(stance),
            self.stepped(after, moved),
            puts_frame(self@, self.steps@[self.next as int]),
            !(due(self@, self.steps@[self.next as int]) is Empty),
        ensures
            moved.poised(stance),
    {
        let step = self.steps@[self.next as int];
        let none = Seq::<u8>::empty();
        let rest = if step is ResetPair {
            seq![0u8]
        } else {
            none
        };
        let body = match step {
            Step::Reset | Step::ResetPair => none,
            _ => after.bytes@.drop_last(),
        };
        self.lemma_looked(stance);
        self.lemma_stays_sound(after, moved);
        self.lemma_step_bytes(after, step);
        assert(cobs::zero_free(body) && body.len() <= transport::MAX_FRAME_SIZE
            - stance.stub.len()) by {
            reveal(whole);
            if let Step::Junk(junk) = step {
                assert(body =~= zeroless(junk@));
            }
        }
        assert(stance.stub + moved.bytes@ =~= stance.stub + (body + seq![0u8] + rest)) by {
            reveal(whole);
            if let Step::Junk(junk) = step {
                assert(body =~= zeroless(junk@));
            }
        }
        lemma_complete(stance.stub, body, rest);
        assert(self@.state == State::AwaitHello && !self@.broken && meek(self@, step) ==> refused(
            stance.stub + body,
        )) by {
            reveal(meek);
            if self@.partial is Boundary {
                assert(stance.stub + body =~= body);
                if let Step::Junk(junk) = step {
                    assert(body =~= zeroless(junk@));
                }
            }
        }
        assert(body.len() > 0 || stance.stub.len() > 0) by {
            reveal(whole);
        }
        assert(moved@ == self@.executed(step));
        assert(moved.next - 1 == self.next);
        assert(fronted(stance.stub + body, rest, stance, moved));
        reveal(Host::poised);
    }

    /// A step leaves the model ahead of the Ark by what it puts in front of it.
    proof fn lemma_stays_poised(self, after: Host<'a>, moved: Host<'a>, stance: Stance)
        requires
            self.looked(stance),
            self.stepped(after, moved),
        ensures
            moved.poised(stance),
    {
        let step = self.steps@[self.next as int];
        if !puts_frame(self@, step) {
            self.lemma_stub_poised(after, moved, stance);
        } else if due(self@, step) is Empty {
            self.lemma_reset_poised(after, moved, stance);
        } else {
            self.lemma_frame_poised(after, moved, stance);
        }
    }

    /// Queues a lone zero.
    fn reset(&mut self)
        requires
            old(self).wf(),
        ensures
            final(self).took(*old(self), Step::Reset),
            old(self).paused(*final(self)),
    {
        self.deliver(Frame::Empty);
        let ghost once = *self;
        self.bytes.push(0);
        proof {
            old(self).lemma_delivered_to(Frame::Empty, once);
            assert(once == (Host { bytes: old(self).bytes, ..*self }));
            reveal(Model::executed);
            reveal(Host::queued);
            reveal(Host::shaped);
            reveal(repeatable);
            assert(self.added(*old(self)) =~= seq![0u8]);
            assert(self.bytes@ =~= old(self).bytes@ + self.added(*old(self)));
        }
    }

    /// Queues two zeros.
    fn reset_pair(&mut self)
        requires
            old(self).wf(),
        ensures
            final(self).took(*old(self), Step::ResetPair),
            old(self).paused(*final(self)),
    {
        self.deliver(Frame::Empty);
        let ghost once = *self;
        self.deliver(Frame::Empty);
        let ghost twice = *self;
        self.bytes.push(0);
        self.bytes.push(0);
        proof {
            old(self).lemma_delivered_to(Frame::Empty, once);
            once.lemma_delivered_to(Frame::Empty, twice);
            assert(twice == (Host { bytes: once.bytes, ..*self }));
            reveal(Model::executed);
            reveal(Host::queued);
            reveal(Host::shaped);
            reveal(repeatable);
            assert(self.added(*old(self)) =~= seq![0u8, 0u8]);
            assert(self.bytes@ =~= old(self).bytes@ + self.added(*old(self)));
        }
    }

    /// Queues a HostHello carrying an encryption key that fails validation.
    fn bad_hello(&mut self)
        requires
            old(self).wf(),
        ensures
            final(self).took(*old(self), Step::HelloBadKey),
            old(self).paused(*final(self)),
    {
        let packet = bad_key_hello();
        self.junk(packet.as_slice());
        proof {
            reveal(Model::executed);
            reveal(Host::queued);
            reveal(Host::shaped);
            reveal(repeatable);
        }
    }

    /// Queues the last HostAck again, if there is one.
    fn replay_ack(&mut self)
        requires
            old(self).wf(),
        ensures
            final(self).took(*old(self), Step::AckReplay),
            old(self).paused(*final(self)),
    {
        let framed = copied(&self.last_ack);
        self.replay(framed);
        proof {
            reveal(Model::executed);
            reveal(Host::queued);
            reveal(Host::shaped);
            reveal(repeatable);
        }
    }

    /// Queues the last request again, if there is one.
    fn replay_request(&mut self)
        requires
            old(self).wf(),
        ensures
            final(self).took(*old(self), Step::RequestReplay),
            old(self).paused(*final(self)),
    {
        let framed = copied(&self.last_request);
        self.replay(framed);
        proof {
            reveal(Model::executed);
            reveal(Host::queued);
            reveal(Host::shaped);
            reveal(repeatable);
        }
    }

    /// Queues bytes as a frame, zeros mapped away.
    fn junk_bytes(&mut self, step: &Step, junk: &Vec<u8>)
        requires
            old(self).wf(),
            *step == Step::Junk(*junk),
        ensures
            final(self).took(*old(self), *step),
            old(self).paused(*final(self)),
    {
        let mut framed = without_zeros(junk);
        framed.push(0);
        self.replay(Some(framed));
        proof {
            reveal(Model::executed);
            reveal(Host::queued);
            reveal(Host::shaped);
            reveal(repeatable);
        }
    }

    /// Queues the last valid frame cut short, if there is one.
    fn truncated(&mut self, cut: u8)
        requires
            old(self).wf(),
        ensures
            final(self).took(*old(self), Step::Truncated(cut)),
            old(self).paused(*final(self)),
    {
        let truncated = match &self.last_valid {
            Some(valid) => {
                assert(valid@.len() > 0) by {
                    reveal(whole);
                    reveal(repeatable);
                }
                let mut framed = truncate(valid, cut);
                framed.push(0);
                proof {
                    reveal(whole);
                    reveal(repeatable);
                    let body = valid@.push(0).drop_last();
                    assert(body =~= valid@);
                    assert(framed@.drop_last() =~= valid@.take(framed@.len() - 1));
                    assert(whole(framed@));
                }
                Some(framed)
            },
            None => None,
        };
        self.replay(truncated);
        proof {
            reveal(Model::executed);
            reveal(Host::queued);
            reveal(Host::shaped);
            reveal(repeatable);
        }
    }

    /// Caps what a single read hands over.
    fn set_chunk(&mut self, size: u8)
        requires
            old(self).wf(),
        ensures
            final(self).took(*old(self), Step::Chunk(size)),
            old(self).paused(*final(self)),
    {
        self.chunk = size as usize;
        proof {
            reveal(Model::executed);
            reveal(Host::queued);
            reveal(Host::shaped);
            reveal(repeatable);
            assert(self.added(*old(self)) =~= Seq::<u8>::empty());
            assert(self.bytes@ =~= old(self).bytes@ + self.added(*old(self)));
        }
    }

    /// Queues a valid HostHello with fresh keys.
    #[verifier::spinoff_prover]
    #[verifier::rlimit(30)]
    fn hello(&mut self)
        requires
            old(self).wf(),
        ensures
            final(self).took(*old(self), Step::Hello),
            old(self).paused(*final(self)),
    {
        let keys = HelloKeys::generate();
        let framed = frame(keys.hello().as_slice());
        assert(whole(framed@)) by {
            reveal(whole);
        }
        self.record(&framed);
        self.last_hello = Some((copy(&framed), keys.clone()));
        proof {
            reveal(repeatable);
        }
        let ghost noted = *self;
        let ghost sent = Frame::Hello(keys);
        self.deliver(Frame::Hello(keys));
        let ghost given = *self;
        append(&mut self.bytes, framed.as_slice());
        proof {
            noted.lemma_delivered_to(sent, given);
            assert(given == (Host { bytes: noted.bytes, ..*self }));
            assert(noted == (Host {
                last_hello: self.last_hello,
                last_valid: self.last_valid,
                ..*old(self)
            })) by {
                reveal(Host::delivered_to);
            }
            reveal(Model::executed);
            reveal(Host::queued);
            reveal(Host::shaped);
            reveal(repeatable);
            assert(self.added(*old(self)) =~= framed@);
            assert(self.bytes@ =~= old(self).bytes@ + framed@);
        }
    }

    /// Queues the last HostHello again, if there is one.
    fn replay_hello(&mut self)
        requires
            old(self).wf(),
        ensures
            final(self).took(*old(self), Step::HelloReplay),
            old(self).paused(*final(self)),
    {
        let replayed = match &self.last_hello {
            Some((framed, keys)) => Some((copy(framed), keys.clone())),
            None => None,
        };
        proof {
            reveal(Model::executed);
            reveal(Host::queued);
            reveal(Host::shaped);
            reveal(repeatable);
            assert(self.added(*old(self)) =~= Seq::<u8>::empty());
            assert(self.bytes@ =~= old(self).bytes@ + self.added(*old(self)));
        }
        if let Some((framed, keys)) = replayed {
            let ghost sent = Frame::Hello(keys);
            self.deliver(Frame::Hello(keys));
            let ghost given = *self;
            append(&mut self.bytes, framed.as_slice());
            proof {
                old(self).lemma_delivered_to(sent, given);
                assert(given == (Host { bytes: old(self).bytes, ..*self }));
            }
            assert(self.added(*old(self)) =~= framed@);
            assert(self.bytes@ =~= old(self).bytes@ + framed@);
        }
    }

    /// Queues a HostHello without its delimiter.
    fn partial_hello(&mut self)
        requires
            old(self).wf(),
        ensures
            final(self).took(*old(self), Step::Partial),
            old(self).paused(*final(self)),
    {
        let keys = HelloKeys::generate();
        let ghost fresh = keys;
        let mut framed = frame(keys.hello().as_slice());
        let _ = framed.pop();
        assert(framed@ =~= cobs::cobs_encoded(fresh.pair()));
        append(&mut self.bytes, framed.as_slice());
        assert(self.added(*old(self)) =~= framed@);
        assert(self.bytes@ =~= old(self).bytes@ + framed@);
        let partial = replace(&mut self.partial, Partial::Junk);
        self.partial = match partial {
            Partial::Boundary => Partial::Hello(keys),
            _ => Partial::Junk,
        };
        proof {
            reveal(Model::executed);
            reveal(Host::queued);
            reveal(Host::shaped);
            reveal(repeatable);
        }
    }

    /// Queues a frame that the Ark refuses, if there is one.
    fn replay(&mut self, framed: Option<Vec<u8>>)
        requires
            old(self).wf(),
        ensures
            final(self)@ == (if framed is Some {
                old(self)@.delivered(Kind::Junk)
            } else {
                old(self)@
            }),
            final(self).bytes@ == old(self).bytes@ + final(self).added(*old(self)),
            final(self).added(*old(self)) == repeated(framed),
            final(self).queued_again(*old(self), content(framed)),
            final(self).outbox == old(self).outbox,
            old(self).paused(*final(self)),
    {
        assert(self.added(*old(self)) =~= Seq::<u8>::empty());
        assert(self.bytes@ =~= old(self).bytes@ + self.added(*old(self)));
        if let Some(framed) = framed {
            self.deliver(Frame::Junk);
            let ghost given = *self;
            append(&mut self.bytes, framed.as_slice());
            proof {
                old(self).lemma_delivered_to(Frame::Junk, given);
                assert(given == (Host { bytes: old(self).bytes, ..*self }));
            }
            assert(self.added(*old(self)) =~= framed@);
            assert(self.bytes@ =~= old(self).bytes@ + framed@);
        }
    }

    /// Queues a HostAck for the ArkHello last received, or junk without one.
    #[verifier::spinoff_prover]
    #[verifier::rlimit(30)]
    fn ack(&mut self)
        requires
            old(self).wf(),
        ensures
            final(self).took(*old(self), Step::Ack),
            old(self).paused(*final(self)),
    {
        proof {
            reveal(Model::executed);
            reveal(Host::queued);
            reveal(Host::shaped);
            reveal(repeatable);
        }
        let pending = match self.pending.take() {
            Some(pending) => pending,
            None => {
                proof {
                    reveal_strlit("ack without a pending ark hello");
                }
                self.junk_text("ack without a pending ark hello");
                return ;
            },
        };
        let ghost answered = pending;
        let (ack, session) = pending.ack(&self.identity).unwrap();
        let ghost opened = session;
        let framed = frame(ack.as_slice());
        assert(whole(framed@)) by {
            reveal(whole);
        }
        self.record(&framed);
        self.last_ack = Some(copy(&framed));
        self.session = Some(session);
        let ghost noted = *self;
        self.deliver(Frame::Ack);
        let ghost given = *self;
        append(&mut self.bytes, framed.as_slice());
        proof {
            noted.lemma_delivered_to(Frame::Ack, given);
            assert(given == (Host { bytes: noted.bytes, ..*self }));
            assert(noted == (Host {
                pending: None,
                session: Some(opened),
                last_ack: self.last_ack,
                last_valid: self.last_valid,
                ..*old(self)
            })) by {
                reveal(Host::delivered_to);
            }
            assert(self.added(*old(self)) =~= framed@);
            assert(self.bytes@ =~= old(self).bytes@ + framed@);
            assert(self.queued_ack(*old(self), answered, ack@, opened));
        }
    }

    /// Queues a sealed request, or junk without a session.
    #[verifier::spinoff_prover]
    #[verifier::rlimit(30)]
    fn request(&mut self, id: u8) -> (queued: Result<(), Divergence>)
        requires
            old(self).wf(),
        ensures
            match queued {
                Ok(_) => final(self).took(*old(self), Step::Request(id)),
                Err(divergence) => divergence == Divergence::Setup && old(self).exhausted(),
            },
            old(self).paused(*final(self)),
    {
        proof {
            reveal(Model::executed);
            reveal(Host::queued);
            reveal(Host::shaped);
            reveal(repeatable);
        }
        let id: u64 = id as u64;
        let packet = match self.seal(tag(id).as_slice()) {
            Ok(Some(packet)) => packet,
            Ok(None) => {
                proof {
                    reveal_strlit("request without a session");
                }
                self.junk_text("request without a session");
                return Ok(());
            },
            Err(divergence) => return Err(divergence),
        };
        let ghost next = self.session->0;
        let framed = frame(packet.as_slice());
        assert(whole(framed@)) by {
            reveal(whole);
        }
        self.record(&framed);
        self.last_request = Some(copy(&framed));
        let ghost noted = *self;
        self.deliver(Frame::Request(id));
        let ghost given = *self;
        append(&mut self.bytes, framed.as_slice());
        proof {
            noted.lemma_delivered_to(Frame::Request(id), given);
            assert(given == (Host { bytes: noted.bytes, ..*self }));
            assert(noted == (Host {
                session: Some(next),
                last_request: self.last_request,
                last_valid: self.last_valid,
                ..*old(self)
            })) by {
                reveal(Host::delivered_to);
            }
            assert(self.added(*old(self)) =~= framed@);
            assert(self.bytes@ =~= old(self).bytes@ + framed@);
            transport::lemma_max_message_size(8);
            assert(self.queued_request(*old(self), old(self).session->0, id, next));
        }
        Ok(())
    }

    /// Queues a sealed request with a flipped byte, or junk without a session.
    #[verifier::spinoff_prover]
    #[verifier::rlimit(30)]
    fn tampered_request(&mut self) -> (queued: Result<(), Divergence>)
        requires
            old(self).wf(),
        ensures
            match queued {
                Ok(_) => final(self).took(*old(self), Step::RequestTampered),
                Err(divergence) => divergence == Divergence::Setup && old(self).exhausted(),
            },
            old(self).paused(*final(self)),
    {
        proof {
            reveal(Model::executed);
            reveal(Host::queued);
            reveal(Host::shaped);
            reveal(repeatable);
        }
        match self.seal(tag(0).as_slice()) {
            Ok(Some(packet)) => {
                let mut packet = packet;
                let ghost sealed = *self;
                let ghost next = self.session->0;
                tamper(&mut packet);
                self.junk(packet.as_slice());
                proof {
                    assert(sealed == (Host { session: Some(next), ..*old(self) }));
                    assert(self.added(*old(self)) =~= self.added(sealed));
                    assert(self.queued_tampered(*old(self), old(self).session->0, next));
                }
                Ok(())
            },
            Ok(None) => {
                proof {
                    reveal_strlit("tampered request without a session");
                }
                self.junk_text("tampered request without a session");
                Ok(())
            },
            Err(divergence) => Err(divergence),
        }
    }

    /// Queues a sealed message that stands for no number, or junk without a session.
    #[verifier::spinoff_prover]
    #[verifier::rlimit(30)]
    fn garbage(&mut self) -> (queued: Result<(), Divergence>)
        requires
            old(self).wf(),
        ensures
            match queued {
                Ok(_) => final(self).took(*old(self), Step::Garbage),
                Err(divergence) => divergence == Divergence::Setup && old(self).exhausted(),
            },
            old(self).paused(*final(self)),
    {
        proof {
            reveal(Model::executed);
            reveal(Host::queued);
            reveal(Host::shaped);
            reveal(repeatable);
        }
        let garbage: Vec<u8> = vec![7u8];
        assert(garbage@ =~= seq![7u8]);
        let packet = match self.seal(garbage.as_slice()) {
            Ok(Some(packet)) => packet,
            Ok(None) => {
                proof {
                    reveal_strlit("garbage without a session");
                }
                self.junk_text("garbage without a session");
                return Ok(());
            },
            Err(divergence) => return Err(divergence),
        };
        let ghost next = self.session->0;
        let framed = frame(packet.as_slice());
        assert(whole(framed@)) by {
            reveal(whole);
        }
        self.record(&framed);
        let ghost noted = *self;
        self.deliver(Frame::Garbage);
        let ghost given = *self;
        append(&mut self.bytes, framed.as_slice());
        proof {
            noted.lemma_delivered_to(Frame::Garbage, given);
            assert(given == (Host { bytes: noted.bytes, ..*self }));
            assert(noted == (Host {
                session: Some(next),
                last_valid: self.last_valid,
                ..*old(self)
            })) by {
                reveal(Host::delivered_to);
            }
            assert(self.added(*old(self)) =~= framed@);
            assert(self.bytes@ =~= old(self).bytes@ + framed@);
            transport::lemma_max_message_size(1);
            assert(self.queued_garbage(*old(self), old(self).session->0, next));
        }
        Ok(())
    }

    /// Seals a short message in the host's session, if there is one.
    fn seal(&mut self, message: &[u8]) -> (sealed: Result<Option<Vec<u8>>, Divergence>)
        requires
            old(self).wf(),
            message@.len() <= 8,
        ensures
            match sealed {
                Ok(Some(packet)) => {
                    &&& old(self).session matches Some(session)
                    &&& final(self).session matches Some(next)
                    &&& packet@ == session.next_packet(message@)
                    &&& packet@.len() == message@.len() + sealing::OVERHEAD
                    &&& sealing::sender_sequence(session.sender) <= u64::MAX
                    &&& session.advanced(next)
                    &&& *final(self) == (Host { session: Some(next), ..*old(self) })
                },
                Ok(None) => old(self).session is None && *final(self) == *old(self),
                Err(divergence) => divergence == Divergence::Setup && old(self).exhausted(),
            },
            sealed is Ok ==> final(self)@ == old(self)@,
            old(self).paused(*final(self)),
    {
        let mut session = match self.session.take() {
            Some(session) => session,
            None => return Ok(None),
        };
        match session.seal(message) {
            Ok(packet) => {
                self.session = Some(session);
                Ok(Some(packet))
            },
            Err(_) => Err(Divergence::Setup),
        }
    }

    /// Queues a flawed HostAck for the ArkHello last received. The Ark refuses it
    /// either way, so it is junk to the model.
    fn bad_ack(&mut self, step: &Step, flaw: AckFlaw)
        requires
            old(self).wf(),
            flaw_of(*step) == Some(flaw),
        ensures
            final(self).took(*old(self), *step),
            old(self).paused(*final(self)),
    {
        proof {
            reveal(Model::executed);
            reveal(Host::queued);
            reveal(Host::shaped);
            reveal(repeatable);
        }
        let drawn = match &self.pending {
            Some(pending) => AckKeys::generate(&pending.ark_crypto),
            None => {
                proof {
                    reveal_strlit("bad ack without a pending ark hello");
                }
                self.junk_text("bad ack without a pending ark hello");
                return ;
            },
        };
        self.bad_ack_with(step, flaw, drawn);
    }

    /// Queues a flawed HostAck for the ArkHello last received, made of the keys given.
    fn bad_ack_with(&mut self, step: &Step, flaw: AckFlaw, drawn: AckKeys)
        requires
            old(self).wf(),
            flaw_of(*step) == Some(flaw),
            old(self).pending matches Some(pending) && drawn.suits(pending.ark_crypto),
        ensures
            final(self).took(*old(self), *step),
            final(self).queued_flawed(
                *old(self),
                old(self).pending->0,
                flaw,
                drawn.sender,
                drawn.other,
                drawn.stranger,
            ),
            old(self).paused(*final(self)),
    {
        proof {
            reveal(Model::executed);
            reveal(Host::queued);
            reveal(Host::shaped);
            reveal(repeatable);
        }
        let ghost sender = drawn.sender;
        let AckKeys { encap, other, stranger, .. } = drawn;
        let ack = match &self.pending {
            Some(pending) => pending.bad_ack_with(
                &self.identity,
                flaw,
                encap,
                &other,
                &stranger,
            ).unwrap(),
            None => return ,
        };
        let ghost pending = self.pending->0;
        proof {
            self.apart@ = self.apart@ && estranged(pending, flaw, other, stranger);
        }
        let ghost given = *self;
        self.junk(ack.as_slice());
        assert(given@ == old(self)@);
        assert(self.added(*old(self)) == self.added(given));
        assert(self.apart == given.apart) by {
            reveal(Host::delivered_to);
        }
        assert((Host { apart: self.apart, ..*old(self) }) == given);
        assert(flawed(pending, old(self).identity, flaw, sender, other, stranger, ack@));
        assert(self.queued_flawed(*old(self), pending, flaw, sender, other, stranger));
    }

    /// Queues a text as a frame, which the Ark refuses.
    fn junk_text(&mut self, text: &str)
        requires
            old(self).wf(),
            text.is_ascii(),
            text@.len() <= 64,
        ensures
            final(self)@ == old(self)@.delivered(Kind::Junk),
            final(self).bytes@ == old(self).bytes@ + super::text_frame(text@),
            final(self).added(*old(self)) == super::text_frame(text@),
            whole(super::text_frame(text@)),
            super::text_frame(text@).len() <= 67,
            old(self).fronts(Frame::Junk, *final(self)),
            final(self).outbox == old(self).outbox,
            old(self).paused(*final(self)),
    {
        proof {
            vstd::utf8::is_ascii_chars_encode_utf8(text@);
        }
        self.junk(text.as_bytes())
    }

    /// Queues a packet that the Ark refuses.
    fn junk(&mut self, packet: &[u8])
        requires
            old(self).wf(),
            packet@.len() <= MAX_JUNK_SIZE,
        ensures
            final(self)@ == old(self)@.delivered(Kind::Junk),
            final(self).bytes@ == old(self).bytes@ + super::packet_frame(packet@),
            final(self).added(*old(self)) == super::packet_frame(packet@),
            whole(super::packet_frame(packet@)),
            super::packet_frame(packet@).len() <= cobs::encoded_bound(packet@.len() as int) + 1,
            old(self).fronts(Frame::Junk, *final(self)),
            final(self).outbox == old(self).outbox,
            old(self).paused(*final(self)),
    {
        let framed = frame(packet);
        assert(whole(framed@)) by {
            reveal(whole);
        }
        self.deliver(Frame::Junk);
        let ghost given = *self;
        append(&mut self.bytes, framed.as_slice());
        proof {
            old(self).lemma_delivered_to(Frame::Junk, given);
            assert(given == (Host { bytes: old(self).bytes, ..*self }));
            assert(self.added(*old(self)) =~= framed@);
            assert(self.bytes@ =~= old(self).bytes@ + framed@);
        }
    }

    /// Remembers the frame as the last valid one, for truncating later.
    fn record(&mut self, framed: &Vec<u8>)
        requires
            old(self).wf(),
            whole(framed@),
        ensures
            final(self)@ == (Model { valid: true, ..old(self)@ }),
            final(self).last_valid matches Some(valid) && valid@ == framed@.drop_last(),
            *final(self) == (Host { last_valid: final(self).last_valid, ..*old(self) }),
            old(self).paused(*final(self)),
    {
        assert(framed@.len() > 0 && framed@.last() == 0) by {
            reveal(whole);
        }
        let mut valid = copy(framed);
        let _ = valid.pop();
        assert(valid@ =~= framed@.drop_last());
        assert(valid@.push(0) =~= framed@);
        self.last_valid = Some(valid);
        proof {
            reveal(repeatable);
        }
    }

    /// Makes the Ark's writes fail, or work again.
    fn set_broken(&mut self, step: &Step, broken: bool)
        requires
            old(self).wf(),
            *step == (if broken {
                Step::Break
            } else {
                Step::Heal
            }),
        ensures
            final(self).took(*old(self), *step),
            old(self).paused(*final(self)),
    {
        self.outbox.set_broken(broken);
        self.broken = broken;
        proof {
            reveal(Model::executed);
            reveal(Host::queued);
            reveal(Host::shaped);
            reveal(repeatable);
            assert(self.added(*old(self)) =~= Seq::<u8>::empty());
            assert(self.bytes@ =~= old(self).bytes@ + self.added(*old(self)));
        }
    }

    /// Applies the model's transition for a frame arriving at the Ark. It leaves the Ark in
    /// a session exactly by the ack it awaits, or by what is sealed in one.
    #[verifier::spinoff_prover]
    #[verifier::rlimit(30)]
    pub fn deliver(&mut self, frame: Frame)
        requires
            old(self).wf(),
        ensures
            final(self).wf(),
            final(self)@ == old(self)@.delivered(frame.kind()),
            final(self)@.state == State::Established <==> old(self)@.partial is Boundary && {
                ||| old(self)@.state == State::AwaitAck && frame is Ack
                ||| old(self)@.state == State::Established && (frame is Request
                    || frame is Garbage)
            },
            old(self).delivered_to(frame, *final(self)),
    {
        proof {
            reveal(Model::delivered);
            reveal(Host::delivered_to);
        }
        let partial = replace(&mut self.partial, Partial::Boundary);
        let frame = match partial {
            Partial::Boundary => frame,
            Partial::Hello(keys) => match frame {
                Frame::Empty => Frame::Hello(keys),
                _ => Frame::Junk,
            },
            Partial::Junk => Frame::Junk,
        };
        match (self.state, frame) {
            // A reset restarts the handshake in every state, the host having
            // asked for it, so nothing is signaled
            (_, Frame::Empty) => {
                self.forget();
                self.state = State::AwaitHello;
            },
            (State::AwaitHello, Frame::Hello(keys)) => {
                if self.broken {
                    // The ArkHello never gets out on a broken transport, the Ark
                    // giving up on the handshake
                    self.forget();
                    self.state = State::Idle;
                    self.resync = true;
                } else {
                    self.awaiting = Some(keys);
                    self.state = State::AwaitAck;
                    self.emit(Emit::ArkHello);
                }
            },
            (State::AwaitAck, Frame::Ack) => {
                self.state = State::Established;
            },
            (State::Established, Frame::Request(id)) => {
                self.outcome = Outcome::Message(id);
            },
            // Garbage surfaces but leaves the session intact
            (State::Established, Frame::Garbage) => {
                self.outcome = Outcome::Undecodable;
            },
            // Anything else drops whatever the Ark had, the host told so
            _ => {
                self.forget();
                self.state = State::Idle;
                self.emit(Emit::Dropped);
            },
        }
    }

    /// Expects the Ark to emit a frame, unless its transport is broken and the
    /// frame is lost.
    fn emit(&mut self, emit: Emit)
        requires
            old(self).wf(),
        ensures
            final(self)@ == old(self)@.emitting(emit),
            *final(self) == (Host {
                emits: final(self).emits,
                resync: final(self).resync,
                ..*old(self)
            }),
            old(self).paused(*final(self)),
    {
        if self.broken {
            self.resync = true;
            return ;
        }
        if self.resync {
            self.emits.push(Emit::Recovery);
            self.resync = false;
        }
        self.emits.push(emit);
    }

    /// Forgets any session or handshake in progress. The keys of a hello the Ark
    /// already answered stay until its ArkHello is checked, the Ark having emitted
    /// it before the handshake was abandoned.
    fn forget(&mut self)
        requires
            old(self).wf(),
        ensures
            final(self)@ == old(self)@.forgotten(old(self)@.state),
            *final(self) == (Host { session: None, pending: None, ..*old(self) }),
            old(self).paused(*final(self)),
    {
        self.session = None;
        self.pending = None;
    }

    /// Applies a read failing, which aborts a handshake in progress but leaves a
    /// session untouched.
    fn interrupt(&mut self, outcome: Outcome)
        requires
            old(self).wf(),
        ensures
            final(self)@ == old(self)@.interrupted(outcome),
            old(self).cut_short(outcome, *final(self)),
            old(self).paused(*final(self)),
    {
        if self.state == State::AwaitHello || self.state == State::AwaitAck {
            self.forget();
            self.state = State::Idle;
        }
        self.outcome = outcome;
    }

    /// Checks that the Ark surfaced what the model expected and arms the model for
    /// the next step.
    fn surfaced(&mut self, outcome: Outcome) -> (checked: Result<(), Divergence>)
        requires
            old(self).wf(),
        ensures
            match checked {
                Ok(_) => {
                    &&& old(self)@.outcome == outcome
                    &&& final(self)@ == (Model { outcome: Outcome::Absorbed, ..old(self)@ })
                    &&& *final(self) == (Host { outcome: Outcome::Absorbed, ..*old(self) })
                },
                Err(divergence) => {
                    &&& old(self)@.outcome != outcome
                    &&& divergence == Divergence::Surfaced
                    &&& *final(self) == *old(self)
                },
            },
            old(self).paused(*final(self)),
    {
        if self.outcome != outcome {
            return Err(Divergence::Surfaced);
        }
        self.outcome = Outcome::Absorbed;
        Ok(())
    }

    /// Checks that the Ark delivered the message that the model expected, and counts it.
    fn hear(&mut self, id: u64) -> (checked: Result<(), Divergence>)
        requires
            old(self).wf(),
            old(self)@.delivered < usize::MAX,
        ensures
            match checked {
                Ok(_) => {
                    &&& old(self)@.outcome == Outcome::Message(id)
                    &&& final(self)@ == (Model {
                        outcome: Outcome::Absorbed,
                        delivered: old(self)@.delivered + 1,
                        ..old(self)@
                    })
                    &&& *final(self) == old(self).heard()
                    &&& final(self).wf()
                },
                Err(divergence) => {
                    &&& old(self)@.outcome != Outcome::Message(id)
                    &&& divergence == Divergence::Surfaced
                    &&& *final(self) == *old(self)
                },
            },
            old(self).paused(*final(self)),
    {
        match self.surfaced(Outcome::Message(id)) {
            Ok(_) => {
                self.summary.delivered = self.summary.delivered + 1;
                Ok(())
            },
            Err(divergence) => Err(divergence),
        }
    }

    /// Checks the Ark's reactions to everything delivered so far, run whenever the
    /// Ark asks for more input and once the run ends.
    #[verifier::spinoff_prover]
    #[verifier::rlimit(40)]
    fn sync(&mut self) -> (checked: Result<(), Divergence>)
        requires
            old(self).wf(),
            old(self)@.weight() <= 1000,
        ensures
            match checked {
                Ok(_) => {
                    &&& old(self)@.outcome == Outcome::Absorbed
                    &&& final(self)@ == old(self)@.settled()
                    &&& old(self).ingests(*final(self))
                },
                Err(Divergence::Surfaced) => old(self)@.outcome != Outcome::Absorbed,
                Err(divergence) => {
                    &&& old(self)@.outcome == Outcome::Absorbed
                    &&& divergence == Divergence::Emitted
                },
            },
            checked matches Err(divergence) ==> old(self).misread(divergence),
            checked is Ok ==> final(self).outbox.bytes() == Seq::<u8>::empty(),
            checked is Ok ==> old(self).reseals(*final(self)),
            old(self).paused(*final(self)),
            final(self).bytes == old(self).bytes,
    {
        if self.outcome != Outcome::Absorbed {
            assert(self.misread(Divergence::Surfaced)) by {
                reveal(Host::misread);
            }
            return Err(Divergence::Surfaced);
        }
        let frames = match self.outbox.take_frames() {
            Some(frames) => frames,
            None => {
                assert(old(self).misread(Divergence::Emitted)) by {
                    reveal(Host::misread);
                }
                return Err(Divergence::Emitted);
            },
        };
        let ghost before = self@;
        let emits = replace(&mut self.emits, Vec::new());
        assert(envelope::contents(frames@).len() == frames@.len());
        if frames.len() != emits.len() {
            assert(old(self).misread(Divergence::Emitted)) by {
                reveal(Host::misread);
            }
            return Err(Divergence::Emitted);
        }
        assert(self@ == before.seeing_all(emits@, 0)) by {
            assert(self@.emits =~= Seq::<Emit>::empty());
        }
        let count: usize = emits.len();
        let mut i: usize = 0;
        let ghost mut hosts: Seq<Host<'a>> = seq![*self];
        assert(self.emits@ =~= Seq::<Emit>::empty());
        assert(old(self).sees_all(hosts));
        while i < count
            invariant
                old(self).reseals(*self),
                old(self).sees_all(hosts),
                hosts.len() == i + 1,
                hosts.last() == *self,
                emits@ == old(self).emits@,
                super::terminated(old(self).outbox.bytes()),
                envelope::contents(frames@) == old(self).written(),
                i <= count,
                count == emits@.len(),
                count == frames@.len(),
                emits@ == before.emits,
                before == old(self)@,
                before.outcome == Outcome::Absorbed,
                self.outbox.bytes() == Seq::<u8>::empty(),
                before.weight() <= 1000,
                old(self).paused(*self),
                self.bytes == old(self).bytes,
                self@ == before.seeing_all(emits@, i as int),
                forall|j: int|
                    0 <= j < frames@.len() ==> cobs::zero_free((#[trigger] frames@[j])@),
            decreases count - i,
        {
            proof {
                lemma_seeing(before, emits@, i as int);
            }
            assert(old(self).written()[i as int] == frames@[i as int]@);
            match self.see(&frames[i], emits[i]) {
                Ok(_) => {},
                Err(divergence) => {
                    assert(old(self).misread(divergence)) by {
                        reveal(Host::misread);
                    }
                    return Err(divergence);
                },
            }
            proof {
                old(self).lemma_sees_more(hosts, *self);
                hosts = hosts.push(*self);
            }
            i = i + 1;
        }
        proof {
            assert(old(self).ingests(*self)) by {
                reveal(Host::ingests);
            }
        }
        Ok(())
    }

    /// Checks one frame the Ark emitted and counts it.
    #[verifier::spinoff_prover]
    #[verifier::rlimit(30)]
    fn see(&mut self, frame: &Vec<u8>, emit: Emit) -> (checked: Result<(), Divergence>)
        requires
            old(self).wf(),
            cobs::zero_free(frame@),
            old(self)@.weight() <= 1000,
        ensures
            match checked {
                Ok(_) => {
                    &&& old(self).shows(frame@, emit)
                    &&& final(self)@ == old(self)@.seeing(emit)
                    &&& old(self).saw(frame@, emit, *final(self))
                    &&& old(self).reseals(*final(self))
                },
                Err(divergence) => {
                    &&& old(self).unseen(frame@, emit)
                    &&& divergence == Divergence::Emitted
                },
            },
            old(self).paused(*final(self)),
            final(self).bytes == old(self).bytes,
            final(self).outbox == old(self).outbox,
    {
        proof {
            reveal(Host::saw);
        }
        match emit {
            Emit::Dropped => {
                if frame.len() != 0 {
                    return Err(Divergence::Emitted);
                }
                self.summary.dropped = self.summary.dropped + 1;
            },
            Emit::Recovery => {
                if frame.len() != 0 {
                    return Err(Divergence::Emitted);
                }
            },
            Emit::ArkHello => {
                match self.receive_hello(frame) {
                    Ok(_) => {},
                    Err(divergence) => return Err(divergence),
                }
                self.summary.handshakes = self.summary.handshakes + 1;
            },
            Emit::Reply(id) => {
                match self.receive_reply(frame, id) {
                    Ok(_) => {},
                    Err(divergence) => return Err(divergence),
                }
                self.summary.replies = self.summary.replies + 1;
            },
        }
        Ok(())
    }

    /// Opens a reply in the host's session and checks its number.
    fn receive_reply(&mut self, frame: &Vec<u8>, id: u64) -> (checked: Result<(), Divergence>)
        requires
            old(self).wf(),
            cobs::zero_free(frame@),
        ensures
            match checked {
                Ok(_) => {
                    &&& old(self).reply_in(frame@) == Some(id)
                    &&& final(self)@ == old(self)@
                    &&& old(self).session matches Some(session)
                    &&& final(self).session matches Some(next)
                    &&& session.received(next)
                    &&& *final(self) == (Host { session: final(self).session, ..*old(self) })
                },
                Err(divergence) => {
                    &&& old(self).unseen(frame@, Emit::Reply(id))
                    &&& divergence == Divergence::Emitted
                },
            },
            old(self).paused(*final(self)),
            final(self).bytes == old(self).bytes,
            final(self).outbox == old(self).outbox,
    {
        proof {
            reveal(Host::reply_in);
        }
        let packet = match unframe(frame.as_slice()) {
            Ok(packet) => packet,
            Err(_) => return Err(Divergence::Emitted),
        };
        let mut session = match self.session.take() {
            Some(session) => session,
            None => return Err(Divergence::Emitted),
        };
        let message = match session.open(packet.as_slice()) {
            Ok(message) => message,
            Err(_) => return Err(Divergence::Emitted),
        };
        self.session = Some(session);
        match read_tag(message.as_slice()) {
            Some(found) => if found == id {
                Ok(())
            } else {
                Err(Divergence::Emitted)
            },
            None => Err(Divergence::Emitted),
        }
    }

    /// Opens and verifies an ArkHello, keeping what is needed to ack it as long as
    /// the Ark is still awaiting that ack.
    #[verifier::spinoff_prover]
    #[verifier::rlimit(30)]
    fn receive_hello(&mut self, frame: &Vec<u8>) -> (checked: Result<(), Divergence>)
        requires
            old(self).wf(),
            cobs::zero_free(frame@),
        ensures
            match checked {
                Ok(_) => {
                    &&& old(self).hello_in(frame@) matches Some((keys, signed))
                    &&& old(self)@.state == State::AwaitAck ==> ackable(
                        final(self).pending,
                        old(self).identity,
                        keys,
                        signed,
                    )
                    &&& old(self)@.state != State::AwaitAck ==> final(self).pending == old(
                        self,
                    ).pending
                    &&& *final(self) == (Host {
                        awaiting: final(self).awaiting,
                        pending: final(self).pending,
                        ..*old(self)
                    })
                    &&& final(self)@ == (Model {
                        awaiting: false,
                        pending: old(self)@.pending || old(self)@.state == State::AwaitAck,
                        ..old(self)@
                    })
                },
                Err(divergence) => {
                    &&& old(self).hello_in(frame@) is None
                    &&& divergence == Divergence::Emitted
                },
            },
            old(self).paused(*final(self)),
            final(self).bytes == old(self).bytes,
            final(self).outbox == old(self).outbox,
    {
        proof {
            reveal(Host::hello_in);
            reveal(ackable);
        }
        let keys = match self.awaiting.take() {
            Some(keys) => keys,
            None => return Err(Divergence::Emitted),
        };
        let packet = match unframe(frame.as_slice()) {
            Ok(packet) => packet,
            Err(_) => return Err(Divergence::Emitted),
        };
        let signed = match keys.read_answer(packet.as_slice(), Answerer::Ark) {
            Ok((signed, _)) => signed,
            Err(_) => return Err(Divergence::Emitted),
        };
        let (ark_crypto, receiver) = match keys.accept(
            signed.as_slice(),
            &self.identity,
            Answerer::Ark,
        ) {
            Ok(accepted) => accepted,
            Err(_) => return Err(Divergence::Emitted),
        };
        if self.state == State::AwaitAck {
            self.pending = Some(Pending { keys, ark_crypto, receiver });
        }
        Ok(())
    }

    /// A read failed, which aborts a handshake in progress on both sides. Nothing is in front
    /// of the Ark but an unterminated frame.
    spec fn rests(self, stance: Stance) -> bool {
        let state = if stance.state == State::Established {
            State::Established
        } else {
            State::Idle
        };
        &&& (Host { outcome: Outcome::Absorbed, ..self }).poised(Stance { state, ..stance })
        &&& self.state == state
        &&& self.bytes@.len() == 0
    }

    /// An Ark that found no frame in front of it has written what it was to write, as far as
    /// that shows without opening it.
    proof fn lemma_poised_even(self, stance: Stance, divergence: Divergence)
        requires
            self.poised(stance),
            self.bytes@.len() == 0,
            cobs::zero_free(stance.stub),
            self.misread(divergence),
        ensures
            self.deaf(),
    {
        reveal(Host::poised);
        reveal(Host::misread);
        reveal(Host::deaf);
        reveal(emitted);
        assert(stance.stub + self.bytes@ =~= stance.stub);
        lemma_incomplete(stance.stub);
        let hosts = choose|hosts: Seq<Host<'a>>| #[trigger]
            self.sees_all(hosts) && hosts.len() <= self.emits@.len() && hosts.last().unseen(
                self.written()[hosts.len() - 1],
                self.emits@[hosts.len() - 1],
            );
        let at = hosts.len() - 1;
        if self.emits@[at] == Emit::Dropped || self.emits@[at] == Emit::Recovery {
            assert(self.written()[at].len() == 0);
        }
    }

    /// Looking at what the Ark wrote leaves the model where it was.
    proof fn lemma_synced(self, after: Host<'a>, stance: Stance)
        requires
            self.poised(stance),
            self.bytes@.len() == 0,
            cobs::zero_free(stance.stub),
            after@ == self@.settled(),
            after.outbox.bytes() == Seq::<u8>::empty(),
            after.bytes == self.bytes,
            self.reseals(after),
            self.paused(after),
        ensures
            after.poised(stance),
            after.emits@ == Seq::<Emit>::empty(),
    {
        reveal(Host::poised);
        assert(stance.stub + self.bytes@ =~= stance.stub);
        lemma_incomplete(stance.stub);
        lemma_seeing(self@, self@.emits, self@.emits.len() as int);
        lemma_emitted_none();
        assert(after.emits@ == after@.emits);
        assert(after.partial.stub() == after@.partial && self.partial.stub() == self@.partial);
        assert(after.pending is Some == after@.pending && after.session is Some == after@.session);
    }

    /// Bytes that are handed over stay in front of the Ark.
    proof fn lemma_fed_poised(self, after: Host<'a>, bytes: Seq<u8>, stance: Stance)
        requires
            self.poised(stance),
            after == (Host { bytes: after.bytes, ..self }),
            bytes + after.bytes@ == self.bytes@,
        ensures
            after.poised(Stance { stub: stance.stub + bytes, ..stance }),
    {
        reveal(Host::poised);
        let pending = stance.stub + self.bytes@;
        assert(stance.stub + bytes + after.bytes@ =~= pending);
        assert(after@ == self@);
    }

    /// A read that fails leaves the model as it leaves the Ark.
    proof fn lemma_interrupted(self, after: Host<'a>, outcome: Outcome, stance: Stance)
        requires
            self.poised(stance),
            self.bytes@.len() == 0,
            cobs::zero_free(stance.stub),
            self.cut_short(outcome, Host { next: self.next, ..after }),
            after.next >= self.next,
        ensures
            after.rests(stance),
    {
        reveal(Host::poised);
        assert(stance.stub + self.bytes@ =~= stance.stub);
        lemma_incomplete(stance.stub);
        assert(self.next * MAX_STUB_SIZE <= after.next * MAX_STUB_SIZE);
    }

    /// Without an answered hello the host has nothing to open.
    proof fn lemma_unanswered_hears(self)
        requires
            unanswered(self.steps@),
            self.follows(),
        ensures
            !self.deaf(),
    {
        lemma_unanswered_emits(self.steps@, self.next as int);
        reveal(Host::deaf);
    }

    /// Checks the Ark's reactions to the steps executed so far, everything handed over
    /// having been consumed.
    #[verifier::spinoff_prover]
    #[verifier::rlimit(30)]
    fn check(&mut self, Ghost(stance): Ghost<Stance>) -> (checked: Result<(), Divergence>)
        requires
            old(self).follows(),
            old(self).bytes@.len() == 0,
        ensures
            match checked {
                Ok(_) => {
                    &&& old(self).ingests(*final(self))
                    &&& final(self)@ == ran(final(self).steps@, final(self).next as int)
                },
                Err(divergence) => old(self).misread(divergence),
            },
            old(self).poised(stance) && cobs::zero_free(stance.stub) ==> match checked {
                Ok(_) => {
                    &&& final(self).poised(stance)
                    &&& final(self).outbox.bytes() == Seq::<u8>::empty()
                    &&& final(self).emits@ == Seq::<Emit>::empty()
                },
                Err(_) => old(self).deaf(),
            },
            old(self).paused(*final(self)),
            final(self).bytes == old(self).bytes,
    {
        let ghost easy = self.poised(stance) && cobs::zero_free(stance.stub);
        proof {
            lemma_weight(self.steps@, self.next as int);
            if self.next == 0 {
                reveal(Model::answered);
            }
            lemma_absorbed(self.steps@, self.next as int);
        }
        match self.sync() {
            Ok(_) => {},
            Err(divergence) => {
                proof {
                    if easy {
                        old(self).lemma_poised_even(stance, divergence);
                    }
                }
                return Err(divergence);
            },
        }
        assert(self@ == ran(self.steps@, self.next as int)) by {
            reveal(Model::answered);
        }
        proof {
            if easy {
                old(self).lemma_synced(*self, stance);
            }
        }
        Ok(())
    }

    /// Takes the script one step further, once everything handed over was consumed.
    /// The reactions to it are checked first. What the Ark's read comes to is handed
    /// out at the script's end and where it yields.
    #[verifier::spinoff_prover]
    #[verifier::rlimit(40)]
    fn advance(&mut self, Ghost(stance): Ghost<Stance>) -> (advanced: Result<
        Option<Fed>,
        Divergence,
    >)
        requires
            old(self).follows(),
            old(self).bytes@.len() == 0,
        ensures
            final(self).steps == old(self).steps,
            final(self).limit == old(self).limit,
            match advanced {
                Ok(None) => final(self).follows() && final(self).next == old(self).next + 1,
                Ok(Some(Fed::Bytes(_))) => false,
                Ok(Some(Fed::Yield)) => {
                    &&& final(self).follows()
                    &&& final(self).next == old(self).next + 1
                    &&& final(self)@.outcome == Outcome::Yield
                    &&& final(self)@ == reached(final(self).steps@, final(self).next as int)
                },
                Ok(Some(Fed::Terminated)) => {
                    &&& final(self).wf()
                    &&& final(self)@ == finished(final(self).steps@)
                },
                Err(_) => true,
            },
            old(self).advances(*final(self), advanced),
            junk_fits(old(self).steps@) && old(self).poised(stance) && cobs::zero_free(
                stance.stub,
            ) ==> match advanced {
                Ok(None) => final(self).poised(stance),
                Ok(Some(_)) => final(self).rests(stance),
                Err(_) => old(self).deaf() && !unanswered(old(self).steps@),
            },
    {
        let ghost easy = junk_fits(self.steps@) && self.poised(stance) && cobs::zero_free(
            stance.stub,
        );
        proof {
            reveal(Host::advances);
            if unanswered(self.steps@) {
                self.lemma_unanswered_hears();
            }
        }
        match self.check(Ghost(stance)) {
            Ok(_) => {},
            Err(divergence) => return Err(divergence),
        }
        let ghost synced = *self;
        if self.next == self.limit {
            self.interrupt(Outcome::Terminated);
            proof {
                if easy {
                    synced.lemma_interrupted(*self, Outcome::Terminated, stance);
                }
            }
            return Ok(Some(Fed::Terminated));
        }
        let step: &Step = &self.steps[self.next];
        let ghost at = self.next as int;
        if let Step::Yield = step {
            self.interrupt(Outcome::Yield);
            self.next = self.next + 1;
            proof {
                if easy {
                    synced.lemma_interrupted(*self, Outcome::Yield, stance);
                }
                reveal(Model::executed);
                assert(self@ == reached(self.steps@, at + 1));
            }
            return Ok(Some(Fed::Yield));
        }
        proof {
            if easy {
                assert(!synced.exhausted()) by {
                    reveal(Host::poised);
                }
                assert(step_fits(synced@, *step)) by {
                    reveal(junk_fits);
                }
            }
        }
        match self.execute(step) {
            Ok(_) => {},
            Err(divergence) => return Err(divergence),
        }
        let ghost made = *self;
        self.next = self.next + 1;
        proof {
            if easy {
                assert(synced.stepped(made, *self));
                synced.lemma_stays_poised(made, *self, stance);
            }
            assert(made.took(synced, old(self).steps@[old(self).next as int]));
            assert(old(self).moves(synced, *self));
            assert(self@ == reached(self.steps@, at + 1));
        }
        Ok(None)
    }

    /// Serves a read of the Ark, pulling the script forward as the Ark reads. Once
    /// everything handed over was consumed, the reactions to it are checked before
    /// the script moves on.
    #[verifier::spinoff_prover]
    #[verifier::rlimit(40)]
    fn feed(&mut self, Ghost(stance): Ghost<Stance>) -> (fed: Result<Fed, Divergence>)
        requires
            old(self).follows(),
        ensures
            final(self).steps == old(self).steps,
            final(self).limit == old(self).limit,
            fed matches Ok(fed) ==> match fed {
                Fed::Bytes(bytes) => {
                    &&& final(self).follows()
                    &&& bytes@.len() > 0
                    &&& old(self).bytes@.len() > 0 ==> {
                        &&& bytes@ + final(self).bytes@ == old(self).bytes@
                        &&& *final(self) == (Host { bytes: final(self).bytes, ..*old(self) })
                    }
                    &&& if final(self).chunk == 0 {
                        final(self).bytes@.len() == 0
                    } else {
                        &&& bytes@.len() <= final(self).chunk
                        &&& final(self).bytes@.len() > 0 ==> bytes@.len() == final(self).chunk
                    }
                    &&& final(self).next > old(self).next || final(self).next == old(self).next
                        && final(self).bytes@.len() < old(self).bytes@.len()
                },
                Fed::Yield => {
                    &&& old(self).bytes@.len() == 0
                    &&& final(self).follows()
                    &&& final(self).next > old(self).next
                    &&& final(self)@.outcome == Outcome::Yield
                    &&& final(self)@ == reached(final(self).steps@, final(self).next as int)
                },
                Fed::Terminated => {
                    &&& final(self).wf()
                    &&& final(self)@ == finished(final(self).steps@)
                },
            },
            old(self).feeds(*final(self), fed),
            junk_fits(old(self).steps@) && old(self).poised(stance) && (old(self).bytes@.len() == 0
                ==> cobs::zero_free(stance.stub)) ==> match fed {
                Ok(Fed::Bytes(bytes)) => final(self).poised(
                    Stance { stub: stance.stub + bytes@, ..stance },
                ),
                Ok(_) => final(self).rests(stance),
                Err(_) => old(self).misses() && !unanswered(old(self).steps@),
            },
    {
        let ghost easy = junk_fits(old(self).steps@) && old(self).poised(stance) && (old(
            self,
        ).bytes@.len() == 0 ==> cobs::zero_free(stance.stub));
        let ghost mut hosts: Seq<Host<'a>> = seq![*self];
        assert(self.skips(hosts)) by {
            reveal(Host::skips);
        }
        if self.bytes.len() == 0 {
            while self.bytes.len() == 0
                invariant
                    old(self).bytes@.len() == 0,
                    old(self).skips(hosts),
                    hosts.last() == *self,
                    self.follows(),
                    self.steps == old(self).steps,
                    self.limit == old(self).limit,
                    self.next >= old(self).next,
                    self.bytes@.len() > 0 ==> self.next > old(self).next,
                    easy ==> {
                        &&& junk_fits(self.steps@)
                        &&& self.poised(stance)
                        &&& cobs::zero_free(stance.stub)
                    },
                    easy == (junk_fits(old(self).steps@) && old(self).poised(stance) && (old(
                        self,
                    ).bytes@.len() == 0 ==> cobs::zero_free(stance.stub))),
                decreases self.limit - self.next,
            {
                match self.advance(Ghost(stance)) {
                    Ok(None) => {
                        proof {
                            old(self).lemma_skips_on(hosts, *self);
                            hosts = hosts.push(*self);
                        }
                    },
                    Ok(Some(fed)) => {
                        assert(old(self).feeds(*self, Ok(fed))) by {
                            reveal(Host::feeds);
                        }
                        return Ok(fed);
                    },
                    Err(divergence) => {
                        assert(old(self).feeds(*self, Err(divergence))) by {
                            reveal(Host::feeds);
                        }
                        assert(hosts.last().deaf() ==> old(self).misses()) by {
                            reveal(Host::misses);
                        }
                        return Err(divergence);
                    },
                }
            }
        }
        let ghost queue = *self;
        let bytes = self.hand_over();
        proof {
            assert(old(self).feeds(*self, Ok(Fed::Bytes(bytes)))) by {
                reveal(Host::feeds);
            }
            if easy {
                queue.lemma_fed_poised(*self, bytes@, stance);
            }
        }
        Ok(Fed::Bytes(bytes))
    }

    /// Hands over bytes that are in front of the Ark, all of them or as many as one read
    /// hands over.
    fn hand_over(&mut self) -> (bytes: Vec<u8>)
        requires
            old(self).bytes@.len() > 0,
        ensures
            bytes@.len() > 0,
            bytes@ + final(self).bytes@ == old(self).bytes@,
            *final(self) == (Host { bytes: final(self).bytes, ..*old(self) }),
            final(self)@ == old(self)@,
            if final(self).chunk == 0 {
                final(self).bytes@.len() == 0
            } else {
                &&& bytes@.len() <= final(self).chunk
                &&& final(self).bytes@.len() > 0 ==> bytes@.len() == final(self).chunk
            },
    {
        let size: usize = self.bytes.len();
        let count: usize = if self.chunk > 0 && self.chunk < size {
            self.chunk
        } else {
            size
        };
        let rest = self.bytes.split_off(count);
        let bytes = replace(&mut self.bytes, rest);
        assert(bytes@ + self.bytes@ =~= old(self).bytes@);
        bytes
    }
}

/// After everything was seen, the model expects nothing more of the Ark.
proof fn lemma_absorbed(steps: Seq<Step>, count: int)
    ensures
        reached(steps, count).outcome == Outcome::Absorbed ==> reached(steps, count).answered()
            == reached(steps, count),
        count > 0 ==> ran(steps, count) == reached(steps, count).answered().settled(),
        count <= 0 ==> ran(steps, count) == reached(steps, count).settled(),
{
    reveal(Model::answered);
    if count <= 0 {
        let start = Model::start();
        assert(start.settled() == start) by {
            assert(start.emits =~= Seq::<Emit>::empty());
            assert(start.seeing_all(start.emits, 0) == (Model { emits: Seq::empty(), ..start }));
        }
    }
}

/// Copies a frame, if there is one.
fn copied(frame: &Option<Vec<u8>>) -> (copied: Option<Vec<u8>>)
    ensures
        copied is Some <==> frame is Some,
        repeated(copied) == repeated(*frame),
{
    match frame {
        Some(frame) => Some(copy(frame)),
        None => None,
    }
}

/// Most bytes of a packet that the Ark is to refuse.
const MAX_JUNK_SIZE: usize = 16384;

/// Most bytes of a frame that is made of a packet, delimiter included.
const MAX_WHOLE_SIZE: usize = 16500;

/// Most bytes of a HostHello without its delimiter.
pub const MAX_STUB_SIZE: usize = 3400;

/// A HostHello carrying an encryption key that fails validation.
fn bad_key_hello() -> (packet: Vec<u8>)
    ensures
        exists|signer: VerifyingKey| packet@ == #[trigger] keyless_hello(signer),
        packet@.len() <= MAX_JUNK_SIZE,
{
    let signer = SigningKey::generate().public_key();
    let mut items: Vec<Vec<u8>> = Vec::new();
    items.push(keys::verifying_key_bytes(&signer));
    items.push(vec![0xffu8; keys::ENCRYPTION_KEY_SIZE]);
    let ghost list = envelope::contents(items@);
    proof {
        let invalid = Seq::new(keys::ENCRYPTION_KEY_SIZE as nat, |i: int| 0xffu8);
        assert(items@[1]@ =~= invalid);
        assert(list =~= seq![keys::xdsa_bytes(signer), invalid]);
        reveal_with_fuel(envelope::list_bound, 3);
        assert(list.drop_last() =~= seq![items@[0]@]);
        assert(list.drop_last().drop_last() =~= Seq::<Seq<u8>>::empty());
    }
    let packet = envelope::encode_list(items);
    assert(packet@ == keyless_hello(signer));
    packet
}

/// The bytes of a frame made of arbitrary ones: zeros mapped to ones, and at least
/// one byte long.
fn without_zeros(junk: &Vec<u8>) -> (body: Vec<u8>)
    ensures
        body@ == zeroless(junk@),
{
    let mut body: Vec<u8> = Vec::new();
    let mut i: usize = 0;
    while i < junk.len()
        invariant
            i <= junk@.len(),
            body@.len() == i,
            forall|j: int|
                0 <= j < i ==> body@[j] == (if junk@[j] == 0 {
                    1u8
                } else {
                    junk@[j]
                }),
        decreases junk@.len() - i,
    {
        let byte: u8 = junk[i];
        body.push(
            if byte == 0 {
                1
            } else {
                byte
            },
        );
        i = i + 1;
    }
    if body.len() == 0 {
        body.push(1);
    }
    assert(body@ =~= zeroless(junk@));
    body
}

/// Cuts a valid frame short, keeping at least one byte.
fn truncate(valid: &Vec<u8>, cut: u8) -> (kept: Vec<u8>)
    requires
        valid@.len() > 0,
    ensures
        kept@ == shortened(valid@, cut),
        0 < kept@.len() <= valid@.len(),
        kept@.len() <= 256,
{
    let size: usize = valid.len();
    let keep: usize = if size <= 1 {
        1
    } else {
        1 + cut as usize % (size - 1)
    };
    proof {
        if size > 1 {
            let (part, full) = (cut as int, size - 1);
            assert(0 <= part % full < full && part % full <= part) by (nonlinear_arith)
                requires
                    part >= 0,
                    full > 0,
            ;
        }
    }
    let mut kept = copy(valid);
    kept.truncate(keep);
    assert(kept@ =~= valid@.take(keep as int));
    kept
}

/// The Ark under test.
type Ark = ArkSide<Attestation>;

/// Whether an Ark presents the same identity as another one.
spec fn same(ark: Ark, after: Ark) -> bool {
    &&& after.signer() == ark.signer()
    &&& after.attester() == ark.attester()
    &&& after.timestamp() == ark.timestamp()
}

/// Writes an output of the Ark and reports the outcome, along with that of the
/// signal a failure may hand out. Tells whether the output was written.
#[verifier::spinoff_prover]
#[verifier::rlimit(30)]
fn write(ark: &mut Ark, host: &mut Host, bytes: Vec<u8>) -> (written: bool)
    requires
        old(host).wf(),
    ensures
        written == !old(host).broken,
        final(host).outbox.bytes() == (if written {
            old(host).outbox.bytes() + bytes@
        } else {
            old(host).outbox.bytes()
        }),
        final(ark).output() == server::Output::Settled,
        final(ark).input() == old(ark).input(),
        final(ark).phase() == (if !written && (old(ark).output() == server::Output::Hello || old(
            ark,
        ).output() == server::Output::Message) {
            server::Phase::Idle
        } else {
            old(ark).phase()
        }),
        final(ark).resync() == (if old(ark).output() == server::Output::Settled {
            old(ark).resync()
        } else {
            !written
        }),
        *final(host) == (Host { outbox: final(host).outbox, ..*old(host) }),
        old(host).paused(*final(host)),
        same(*old(ark), *final(ark)),
{
    let written = host.outbox.write(bytes.as_slice()).is_ok();
    if let Some(signal) = ark.sent(written) {
        let signaled = host.outbox.write(signal.as_slice()).is_ok();
        let _ = ark.sent(signaled);
    }
    written
}

/// Checks that the Ark has a session exactly when the model says so. An oversized
/// message is refused before sealing, so it probes the session without any frame
/// going out.
fn check_session(ark: &mut Ark, host: &Host) -> (checked: Result<(), Divergence>)
    requires
        old(ark).output() == server::Output::Settled,
    ensures
        final(ark).input() == old(ark).input(),
        final(ark).phase() == old(ark).phase(),
        final(ark).resync() == old(ark).resync(),
        checked is Ok ==> final(ark).output() == server::Output::Settled,
        checked matches Err(divergence) ==> divergence == Divergence::Session,
        same(*old(ark), *final(ark)),
        checked is Ok <==> (host@.state == State::Established) == (old(
            ark,
        ).phase() is Established),
{
    let established = host.state == State::Established;
    let oversized: Vec<u8> = vec![0x42u8; MAX_MESSAGE_SIZE + 1];
    match ark.send_message(oversized.as_slice()) {
        Err(server::Refusal { error: Error::PacketTooLarge(_), .. }) => if established {
            Ok(())
        } else {
            Err(Divergence::Session)
        },
        Err(server::Refusal { error: Error::EncryptionFailed(_), .. }) => if !established {
            Ok(())
        } else {
            Err(Divergence::Session)
        },
        _ => Err(Divergence::Session),
    }
}

/// Whether the model has a session exactly if a server has one that can still seal.
pub open spec fn agreed(model: Model, phase: server::Phase) -> bool {
    (model.state == State::Established) == (phase is Established && !spent(phase))
}

/// Whether a session has sealed all the messages that it can.
pub open spec fn spent(phase: server::Phase) -> bool {
    phase matches server::Phase::Established(session) && sealing::sender_sequence(session.sender)
        > u64::MAX
}

/// Whether a message of the number was put on the wire as one frame, sealed in the
/// session that a server goes on with.
#[verifier::opaque]
spec fn replied(
    session: Session,
    resync: bool,
    after: server::Phase,
    before: Outbox,
    outbox: Outbox,
    id: u64,
) -> bool {
    let packet = session.next_packet(super::tagged(id));
    let bytes = framing::framed(resync, cobs::cobs_encoded(packet));
    &&& after matches server::Phase::Established(next)
    &&& session.sends(next, super::tagged(id), resync, bytes)
    &&& outbox.bytes() == before.bytes() + bytes
}

/// The model and the transport after a message was sent on the Ark's behalf, by where the
/// Ark stood. In a session it goes out as one frame on a working transport, and takes the
/// session down with it on a broken one. A session that can seal no more ends with the
/// signal.
#[verifier::opaque]
spec fn says<'a>(
    phase: server::Phase,
    resync: bool,
    host: Host<'a>,
    id: u64,
    after: Ark,
    moved: Host<'a>,
) -> bool {
    &&& moved == (Host {
        state: moved.state,
        resync: moved.resync,
        emits: moved.emits,
        pending: moved.pending,
        session: moved.session,
        outbox: moved.outbox,
        ..host
    })
    &&& moved@ == host@.sending(id)
    &&& moved.session is Some ==> moved.session == host.session
    &&& moved.pending is Some ==> moved.pending == host.pending
    &&& match phase {
        server::Phase::Established(session) => if spent(phase) {
            &&& after.phase() is Idle
            &&& after.resync() == host.broken
            &&& moved.outbox.bytes() == if host.broken {
                host.outbox.bytes()
            } else {
                host.outbox.bytes() + framing::framed(resync, Seq::empty())
            }
        } else if host.broken {
            &&& after.phase() is Idle
            &&& after.resync()
            &&& moved.outbox.bytes() == host.outbox.bytes()
        } else {
            &&& replied(session, resync, after.phase(), host.outbox, moved.outbox, id)
            &&& !after.resync()
        },
        _ => {
            &&& after.phase() == phase
            &&& after.resync() == resync
            &&& moved.outbox == host.outbox
        },
    }
}

/// Sends a message on the Ark's behalf, checking that the send path works exactly
/// in a session on a working transport. A failed send takes the session down with
/// it.
#[verifier::spinoff_prover]
#[verifier::rlimit(30)]
fn send(ark: &mut Ark, host: &mut Host, id: u64) -> (sent: Result<(), Divergence>)
    requires
        old(ark).output() == server::Output::Settled,
        old(host).wf(),
    ensures
        final(ark).output() == server::Output::Settled,
        final(ark).input() == old(ark).input(),
        match sent {
            Ok(_) => {
                &&& agreed(old(host)@, old(ark).phase())
                &&& final(host)@ == old(host)@.sending(id)
                &&& says(
                    old(ark).phase(),
                    old(ark).resync(),
                    *old(host),
                    id,
                    *final(ark),
                    *final(host),
                )
            },
            Err(divergence) => {
                &&& divergence == Divergence::Sent
                &&& !agreed(old(host)@, old(ark).phase())
            },
        },
        !(old(ark).phase() is Established) ==> {
            &&& final(ark).phase() == old(ark).phase()
            &&& final(ark).resync() == old(ark).resync()
            &&& final(host).outbox == old(host).outbox
        },
        final(host).bytes == old(host).bytes,
        old(host).paused(*final(host)),
        same(*old(ark), *final(ark)),
{
    proof {
        reveal(replied);
        reveal(says);
    }
    let established = host.state == State::Established;
    match ark.send_message(tag(id).as_slice()) {
        Ok(bytes) => {
            let written = write(ark, host, bytes);
            if !established || host.broken == written {
                return Err(Divergence::Sent);
            }
            if written {
                host.emit(Emit::Reply(id));
            } else {
                host.forget();
                host.state = State::Idle;
                host.resync = true;
            }
            Ok(())
        },
        Err(refusal) => {
            if let Some(signal) = refusal.signal {
                let _ = write(ark, host, signal);
            }
            match refusal.error {
                Error::EncryptionFailed(_) => if established {
                    Err(Divergence::Sent)
                } else {
                    Ok(())
                },
                _ => Err(Divergence::Sent),
            }
        },
    }
}

/// The driver answers a message that stands for a number with a reply, and one that does
/// not with nothing. Nothing is left to be surfaced afterwards.
proof fn lemma_answered(model: Model)
    ensures
        !(model.answered().outcome is Message),
        !(model.answered().outcome is Undecodable),
        match model.outcome {
            Outcome::Message(id) => model.answered() == (Model {
                outcome: Outcome::Absorbed,
                delivered: model.delivered + 1,
                ..model
            }).sending(id),
            Outcome::Undecodable => model.answered() == (Model {
                outcome: Outcome::Absorbed,
                ..model
            }),
            _ => true,
        },
{
    reveal(Model::answered);
}

/// The model still follows the script once the driver has answered what the Ark
/// surfaced.
proof fn lemma_follows_on(before: Host, after: Host)
    requires
        before.follows(),
        before.paused(after),
        before@.outcome is Message || before@.outcome is Undecodable,
        after@ == before@.answered(),
    ensures
        after.follows(),
{
    lemma_answered(reached(before.steps@, before.next as int));
}

/// Delivers a message of the Ark's, replying to it as an Ark would if it stands for
/// a number.
#[verifier::spinoff_prover]
#[verifier::rlimit(30)]
fn serve(ark: &mut Ark, host: &mut Host, message: &[u8]) -> (served: Result<(), Divergence>)
    requires
        old(ark).output() == server::Output::Settled,
        old(host).wf(),
        old(host)@.delivered < usize::MAX,
    ensures
        final(ark).output() == server::Output::Settled,
        final(ark).input() == old(ark).input(),
        match super::tag_of(message@) {
            Some(id) => if old(host)@.outcome == Outcome::Message(id) {
                match served {
                    Ok(_) => {
                        &&& agreed(old(host)@, old(ark).phase())
                        &&& final(host)@ == (Model {
                            outcome: Outcome::Absorbed,
                            delivered: old(host)@.delivered + 1,
                            ..old(host)@
                        }).sending(id)
                        &&& says(
                            old(ark).phase(),
                            old(ark).resync(),
                            old(host).heard(),
                            id,
                            *final(ark),
                            *final(host),
                        )
                    },
                    Err(divergence) => {
                        &&& divergence == Divergence::Sent
                        &&& !agreed(old(host)@, old(ark).phase())
                    },
                }
            } else {
                &&& served == Err::<(), Divergence>(Divergence::Surfaced)
                &&& *final(ark) == *old(ark)
                &&& *final(host) == *old(host)
            },
            None => {
                &&& *final(ark) == *old(ark)
                &&& if old(host)@.outcome == Outcome::Undecodable {
                    &&& served is Ok
                    &&& final(host)@ == (Model { outcome: Outcome::Absorbed, ..old(host)@ })
                    &&& *final(host) == (Host { outcome: Outcome::Absorbed, ..*old(host) })
                } else {
                    &&& served == Err::<(), Divergence>(Divergence::Surfaced)
                    &&& *final(host) == *old(host)
                }
            },
        },
        final(host).bytes == old(host).bytes,
        old(host).paused(*final(host)),
        same(*old(ark), *final(ark)),
{
    match read_tag(message) {
        Some(id) => {
            if let Err(divergence) = host.hear(id) {
                return Err(divergence);
            }
            send(ark, host, id)
        },
        None => host.surfaced(Outcome::Undecodable),
    }
}

/// Where an Ark stands.
spec fn stance(ark: Ark) -> Stance {
    Stance {
        stub: ark.input().pending,
        state: state_of(ark.phase()),
        resync: ark.resync(),
    }
}

/// Whether an Ark has sealed no more messages than there were steps, none of them for the
/// frame in front of it, and presents an attestation that leaves room in a frame.
spec fn manned(ark: Ark, host: Host) -> bool {
    let pending = ark.input().pending + host.bytes@;
    &&& ark.attester()@.len() <= super::TOKEN_OVERHEAD
    &&& match ark.phase() {
        server::Phase::AwaitAck(answered) => sealing::sender_sequence(answered.sender) == 0,
        server::Phase::Established(session) => if framing::first_zero(pending) < pending.len() {
            sealing::sender_sequence(session.sender) < host.next
        } else {
            sealing::sender_sequence(session.sender) <= host.next
        },
        _ => true,
    }
}

/// Whether the model is ahead of an Ark by what is in front of it.
spec fn level(ark: Ark, host: Host) -> bool {
    &&& !ark.input().discarding
    &&& host.poised(stance(ark))
    &&& manned(ark, host)
}

/// The Ark takes the frame in front of it for something else than it stands for.
spec fn mistakes(ark: Ark, host: Host) -> bool {
    let model = ran(host.steps@, host.next - 1);
    let step = host.steps@[host.next - 1];
    &&& host.next > 0
    &&& framing::next_item(framing::past_oversized(ark.input())) matches Some(
        framing::Item::Frame(frame),
    )
    &&& frame.len() > 0
    &&& canon(model.state, model.broken, due(model, step)) != canon(
        model.state,
        model.broken,
        kind_of(
            ark.phase(),
            framing::arrival(framing::Item::Frame(frame)),
            keys::xdsa_public(ark.signer()),
        ),
    )
}

/// The Ark takes the frame in front of it for something else than it stands for, or has
/// none in front of it and the host does not open an ArkHello or a reply.
spec fn misreads(ark: Ark, host: Host) -> bool {
    ||| mistakes(ark, host)
    ||| framing::next_item(framing::past_oversized(ark.input())) is None && host.misses()
}

/// What an Ark finds in front of it.
#[verifier::spinoff_prover]
#[verifier::rlimit(30)]
proof fn lemma_found(ark: Ark, host: Host)
    requires
        level(ark, host),
        host.wf(),
    ensures
        ({
            let input = ark.input();
            let pending = input.pending + host.bytes@;
            let found = framing::first_zero(pending);
            &&& framing::past_oversized(input) == input
            &&& if found < input.pending.len() {
                let rest = input.pending.skip(found + 1);
                &&& framing::next_item(input) == Some(framing::Item::Frame(pending.take(found)))
                &&& framing::after_item(input) == (framing::Input {
                    pending: rest,
                    discarding: false,
                })
                &&& rest + host.bytes@ == pending.skip(found + 1)
                &&& found >= 0
            } else {
                &&& framing::next_item(input) is None
                &&& framing::after_item(input) == input
                &&& cobs::zero_free(input.pending)
            }
        }),
{
    reveal(Host::poised);
    let input = ark.input();
    let pending = input.pending + host.bytes@;
    framing::lemma_first_zero(input.pending);
    framing::lemma_first_zero(host.bytes@);
    framing::lemma_first_zero(pending);
    framing::lemma_first_zero_concat(input.pending, host.bytes@);
    lemma_incomplete(input.pending);
    let found = framing::first_zero(pending);
    if found < input.pending.len() {
        assert(input.pending.take(found) =~= pending.take(found));
        assert(input.pending.skip(found + 1) + host.bytes@ =~= pending.skip(found + 1));
    }
}

/// What a frame that is not empty makes of an Ark, by what the Ark takes it for.
#[verifier::spinoff_prover]
#[verifier::rlimit(30)]
proof fn lemma_reaction(
    ark: Ark,
    frame: Seq<u8>,
    step: server::Step,
    phase: server::Phase,
    next: Attestation,
    broken: bool,
)
    requires
        frame.len() > 0,
        ark.attester()@.len() <= super::TOKEN_OVERHEAD,
        server::reacts(
            ark.phase(),
            framing::arrival(framing::Item::Frame(frame)),
            ark.attester(),
            ark.signer(),
            ark.timestamp(),
            ark.resync(),
            step,
            phase,
            next,
        ),
    ensures
        next == ark.attester(),
        ({
            let taken = kind_of(
                ark.phase(),
                framing::arrival(framing::Item::Frame(frame)),
                keys::xdsa_public(ark.signer()),
            );
            match canon(state_of(ark.phase()), broken, taken) {
                Kind::Hello => welcomed(ark.resync(), step, phase),
                Kind::Ack => {
                    &&& step is Again
                    &&& ark.phase() matches server::Phase::AwaitAck(answered)
                    &&& phase matches server::Phase::Established(session)
                    &&& session.sender == answered.sender
                },
                Kind::Request(id) => {
                    &&& step matches server::Step::Message(message)
                    &&& super::tag_of(message@) == Some(id)
                    &&& moves_on(ark.phase(), phase)
                },
                Kind::Garbage => {
                    &&& step matches server::Step::Message(message)
                    &&& super::tag_of(message@) is None
                    &&& moves_on(ark.phase(), phase)
                },
                Kind::Junk => {
                    ||| server::drops(ark.resync(), step, phase)
                    ||| broken && welcomed(ark.resync(), step, phase)
                },
                Kind::Empty => false,
            }
        }),
{
    handshake::lemma_attestations_fit(ark.attester()@, ark.signer(), ark.timestamp());
}

/// The Ark answers a hello, and awaits the ack.
spec fn welcomed(resync: bool, step: server::Step, phase: server::Phase) -> bool {
    &&& phase matches server::Phase::AwaitAck(answered)
    &&& sealing::sender_sequence(answered.sender) == 0
    &&& step matches server::Step::Write(bytes)
    &&& exists|body: Seq<u8>|
        #[trigger] cobs::zero_free(body) && bytes@ == framing::framed(resync, body)
}

/// A session goes on sealing where it stood.
spec fn moves_on(phase: server::Phase, after: server::Phase) -> bool {
    &&& phase matches server::Phase::Established(session)
    &&& after matches server::Phase::Established(next)
    &&& next.sender == session.sender
}

/// What the Ark writes gets out on a working transport only, and a handshake whose answer
/// does not ends.
spec fn wrote<'a>(
    bytes: Seq<u8>,
    phase: server::Phase,
    host: Host<'a>,
    after: Ark,
    moved: Host<'a>,
) -> bool {
    &&& moved == (Host { outbox: moved.outbox, ..host })
    &&& moved.outbox.bytes() == if host.broken {
        host.outbox.bytes()
    } else {
        host.outbox.bytes() + bytes
    }
    &&& after.phase() == if host.broken && phase is AwaitAck {
        server::Phase::Idle
    } else {
        phase
    }
    &&& after.resync() == host.broken
}

/// An Ark that took a reset is as far behind the model as before.
#[verifier::spinoff_prover]
#[verifier::rlimit(30)]
proof fn lemma_level_reset(ark: Ark, host: Host, after: Ark)
    requires
        level(ark, host),
        host.wf(),
        framing::first_zero(ark.input().pending + host.bytes@) == 0,
        ark.input().pending.len() > 0,
        after.input() == framing::after_item(ark.input()),
        after.phase() is AwaitHello,
        after.resync() == ark.resync(),
        after.attester() == ark.attester(),
    ensures
        level(after, host),
{
    lemma_found(ark, host);
    reveal(Host::poised);
    let pending = ark.input().pending + host.bytes@;
    lemma_rest(pending.skip(1));
}

/// What resets alone are found as.
proof fn lemma_rest(rest: Seq<u8>)
    requires
        zeros(rest),
    ensures
        framing::first_zero(rest) == 0,
        rest.len() > 0 ==> zeros(rest.skip(1)),
{
    framing::lemma_first_zero(rest);
    if rest.len() > 0 {
        assert(rest.take(0) =~= Seq::<u8>::empty());
        assert(cobs::zero_free(rest.take(0)));
    }
}

/// An Ark that took the frame in front of it for what it is has caught up with the model,
/// once what it wrote is out.
#[verifier::spinoff_prover]
#[verifier::rlimit(40)]
proof fn lemma_level_on<'a>(
    ark: Ark,
    host: Host<'a>,
    step: server::Step,
    phase: server::Phase,
    after: Ark,
    moved: Host<'a>,
)
    requires
        level(ark, host),
        host.wf(),
        0 < framing::first_zero(ark.input().pending + host.bytes@) < ark.input().pending.len(),
        !mistakes(ark, host),
        server::reacts(
            ark.phase(),
            framing::arrival(framing::next_item(ark.input())->0),
            ark.attester(),
            ark.signer(),
            ark.timestamp(),
            ark.resync(),
            step,
            phase,
            after.attester(),
        ),
        after.input() == framing::after_item(ark.input()),
        match step {
            server::Step::Again => {
                &&& moved == host
                &&& after.phase() == phase
                &&& after.resync() == ark.resync()
            },
            server::Step::Write(bytes) => wrote(bytes@, phase, host, after, moved),
            _ => false,
        },
    ensures
        level(after, moved),
{
    lemma_found(ark, host);
    let pending = ark.input().pending + host.bytes@;
    let found = framing::first_zero(pending);
    let body = pending.take(found);
    let rest = pending.skip(found + 1);
    let model = ran(host.steps@, host.next - 1);
    let came = canon(model.state, model.broken, due(model, host.steps@[host.next - 1]));
    framing::lemma_first_zero(pending);
    assert(fronted(body, rest, stance(ark), host) && host.sound()) by {
        reveal(Host::poised);
    }
    lemma_front(body, rest, stance(ark), host);
    lemma_reaction(ark, body, step, phase, after.attester(), host.broken);
    lemma_rest(rest);
    lemma_emitted_none();
    let none = Seq::<u8>::empty();
    assert(none + framing::framed(ark.resync(), none) =~= framing::framed(ark.resync(), none));
    lemma_emitted_more(none, Seq::empty(), ark.resync(), none, Emit::Dropped);
    if let server::Step::Write(bytes) = step {
        if welcomed(ark.resync(), step, phase) {
            let answer = choose|body: Seq<u8>| #[trigger]
                cobs::zero_free(body) && bytes@ == framing::framed(ark.resync(), body);
            lemma_emitted_more(none, Seq::empty(), ark.resync(), answer, Emit::ArkHello);
        }
        assert(none + bytes@ =~= bytes@);
    }
    assert(moved@ == host@);
    reveal(Host::poised);
}

/// An Ark that delivered a message has caught up with the model, once the message is
/// counted.
#[verifier::spinoff_prover]
#[verifier::rlimit(40)]
proof fn lemma_level_message<'a>(
    ark: Ark,
    host: Host<'a>,
    message: Vec<u8>,
    phase: server::Phase,
    after: Ark,
)
    requires
        level(ark, host),
        host.wf(),
        0 < framing::first_zero(ark.input().pending + host.bytes@) < ark.input().pending.len(),
        !mistakes(ark, host),
        server::reacts(
            ark.phase(),
            framing::arrival(framing::next_item(ark.input())->0),
            ark.attester(),
            ark.signer(),
            ark.timestamp(),
            ark.resync(),
            server::Step::Message(message),
            phase,
            after.attester(),
        ),
        after.input() == framing::after_item(ark.input()),
        after.phase() == phase,
        after.resync() == ark.resync(),
        host.summary.delivered < usize::MAX,
    ensures
        host.outcome == match super::tag_of(message@) {
            Some(id) => Outcome::Message(id),
            None => Outcome::Undecodable,
        },
        after.phase() matches server::Phase::Established(session)
            && sealing::sender_sequence(session.sender) < host.next,
        host.state == State::Established,
        level(after, Host { outcome: Outcome::Absorbed, ..host }),
        level(after, host.heard()),
{
    lemma_found(ark, host);
    let pending = ark.input().pending + host.bytes@;
    let found = framing::first_zero(pending);
    let body = pending.take(found);
    let rest = pending.skip(found + 1);
    framing::lemma_first_zero(pending);
    assert(fronted(body, rest, stance(ark), host) && host.sound()) by {
        reveal(Host::poised);
    }
    lemma_front(body, rest, stance(ark), host);
    lemma_reaction(
        ark,
        body,
        server::Step::Message(message),
        phase,
        after.attester(),
        host.broken,
    );
    lemma_rest(rest);
    lemma_emitted_none();
    assert(rest =~= Seq::<u8>::empty());
    reveal(Host::poised);
}

/// Nothing is left in front of an Ark once it took a frame that stands for a message.
proof fn lemma_nothing_left<'a>(ark: Ark, host: Host<'a>)
    requires
        level(ark, host),
        host.wf(),
        0 < framing::first_zero(ark.input().pending + host.bytes@) < ark.input().pending.len(),
        host.state == State::Established,
    ensures
        cobs::zero_free(framing::after_item(ark.input()).pending + host.bytes@),
{
    lemma_found(ark, host);
    let pending = ark.input().pending + host.bytes@;
    let found = framing::first_zero(pending);
    assert(fronted(pending.take(found), pending.skip(found + 1), stance(ark), host)) by {
        reveal(Host::poised);
    }
    lemma_front(pending.take(found), pending.skip(found + 1), stance(ark), host);
}

/// A message that was sent on the Ark's behalf leaves it level with the model.
#[verifier::spinoff_prover]
#[verifier::rlimit(40)]
proof fn lemma_level_said<'a>(ark: Ark, host: Host<'a>, id: u64, after: Ark, moved: Host<'a>)
    requires
        level(ark, host),
        cobs::zero_free(ark.input().pending + host.bytes@),
        ark.phase() matches server::Phase::Established(session)
            ==> sealing::sender_sequence(session.sender) < host.next <= MAX_STEPS,
        says(ark.phase(), ark.resync(), host, id, after, moved),
        after.input() == ark.input(),
        after.attester() == ark.attester(),
    ensures
        level(after, moved),
{
    reveal(says);
    reveal(Host::poised);
    let pending = ark.input().pending + host.bytes@;
    lemma_incomplete(pending);
    assert(moved.emits@ == moved@.emits && host.emits@ == host@.emits);
    if let server::Phase::Established(session) = ark.phase() {
        reveal(replied);
        let packet = session.next_packet(super::tagged(id));
        let body = cobs::cobs_encoded(packet);
        if !host.broken {
            lemma_emitted_more(
                host.outbox.bytes(),
                host.emits@,
                ark.resync(),
                body,
                Emit::Reply(id),
            );
        }
    }
}

/// Bytes that were handed to the Ark are in front of it still.
proof fn lemma_level_fed<'a>(ark: Ark, host: Host<'a>, bytes: Seq<u8>, after: Ark, moved: Host<'a>)
    requires
        level(ark, host),
        host.bytes@.len() == 0 ==> cobs::zero_free(ark.input().pending),
        host.bytes@.len() > 0 ==> {
            &&& bytes + moved.bytes@ == host.bytes@
            &&& moved.next == host.next
        },
        host.bytes@.len() == 0 ==> moved.next > host.next,
        after.input() == framing::extended(ark.input(), bytes),
        after.phase() == ark.phase(),
        after.resync() == ark.resync(),
        after.attester() == ark.attester(),
        moved.poised(Stance { stub: ark.input().pending + bytes, ..stance(ark) }),
    ensures
        level(after, moved),
{
    let before = ark.input().pending + host.bytes@;
    assert(host.bytes@.len() > 0 ==> after.input().pending + moved.bytes@ =~= before);
    if host.bytes@.len() == 0 {
        assert(before =~= ark.input().pending);
        lemma_incomplete(before);
    }
}

/// A read that failed leaves the Ark level with the model, once it was told so.
proof fn lemma_level_stopped<'a>(ark: Ark, host: Host<'a>, after: Ark, moved: Host<'a>)
    requires
        level(ark, host),
        cobs::zero_free(ark.input().pending),
        host.bytes@.len() == 0,
        moved.next > host.next,
        moved.rests(stance(ark)),
        after.input() == ark.input(),
        after.phase() == cut(ark.phase()),
        after.resync() == ark.resync(),
        after.attester() == ark.attester(),
    ensures
        ({
            let probed = Host { outcome: Outcome::Absorbed, ..moved };
            &&& level(after, probed)
            &&& moved.state == state_of(after.phase())
            &&& cobs::zero_free(after.input().pending + probed.bytes@)
            &&& (after.phase() matches server::Phase::Established(session)
                ==> sealing::sender_sequence(session.sender) < moved.next)
        }),
{
    let probed = Host { outcome: Outcome::Absorbed, ..moved };
    assert(ark.input().pending + host.bytes@ =~= ark.input().pending);
    assert(after.input().pending + probed.bytes@ =~= ark.input().pending);
    lemma_incomplete(ark.input().pending);
    assert(stance(after) == (Stance { state: moved.state, ..stance(ark) }));
}

/// While no hello is answered, the Ark takes every frame for what it is.
#[verifier::spinoff_prover]
#[verifier::rlimit(30)]
proof fn lemma_meek_heeds(ark: Ark, host: Host)
    requires
        level(ark, host),
        host.wf(),
        unanswered(host.steps@),
        ark.phase() is AwaitHello ==> framing::cut_off(framing::next_item(ark.input()))
            && server::brief(framing::next_item(ark.input())),
    ensures
        !mistakes(ark, host),
{
    lemma_found(ark, host);
    if mistakes(ark, host) {
        let pending = ark.input().pending + host.bytes@;
        let found = framing::first_zero(pending);
        let body = pending.take(found);
        framing::lemma_first_zero(pending);
        assert(fronted(body, pending.skip(found + 1), stance(ark), host)) by {
            reveal(Host::poised);
        }
        let at = host.next - 1;
        lemma_unanswered(host.steps@, at);
        assert(meek(ran(host.steps@, at), host.steps@[at])) by {
            reveal(unanswered);
        }
        reveal(meek);
    }
}

/// Less is left of the script, or of what is in front of the Ark.
spec fn shrinks(ark: Ark, host: Host, after: Ark, moved: Host) -> bool {
    ||| moved.next > host.next
    ||| moved.next == host.next && moved.bytes@.len() < host.bytes@.len()
    ||| moved.next == host.next && moved.bytes@.len() == host.bytes@.len()
        && after.input().pending.len() < ark.input().pending.len()
}

/// Phase that a server is left in by a read that failed.
spec fn cut(phase: server::Phase) -> server::Phase {
    match phase {
        server::Phase::Established(session) => server::Phase::Established(session),
        _ => server::Phase::Idle,
    }
}

/// Whether the model has a session exactly if a server has one.
spec fn paired(model: Model, phase: server::Phase) -> bool {
    (model.state == State::Established) == (phase is Established)
}

/// A read of the Ark comes to what the script makes of it. Where it yields, the Ark and
/// the model have to agree on whether there is a session, which has to be able to seal
/// the probe. They have to agree at its end too, where the run is over.
#[verifier::opaque]
spec fn reads<'a>(
    ark: Ark,
    host: Host<'a>,
    after: Ark,
    moved: Host<'a>,
    read: Result<Option<Summary>, Divergence>,
) -> bool {
    exists|served: Host<'a>, fed: Result<Fed, Divergence>|
        {
            &&& #[trigger] host.feeds(served, fed)
            &&& match fed {
                Err(divergence) => read == Err::<Option<Summary>, Divergence>(divergence),
                Ok(Fed::Bytes(bytes)) => {
                    &&& read == Ok::<Option<Summary>, Divergence>(None)
                    &&& after.input() == framing::extended(ark.input(), bytes@)
                    &&& after.phase() == ark.phase()
                    &&& after.resync() == ark.resync()
                    &&& moved == served
                },
                Ok(Fed::Yield) => {
                    let phase = cut(ark.phase());
                    if served.outcome != Outcome::Yield {
                        read == Err::<Option<Summary>, Divergence>(Divergence::Surfaced)
                    } else if !paired(served@, phase) {
                        read == Err::<Option<Summary>, Divergence>(Divergence::Session)
                    } else if !agreed(served@, phase) {
                        read == Err::<Option<Summary>, Divergence>(Divergence::Sent)
                    } else {
                        &&& read == Ok::<Option<Summary>, Divergence>(None)
                        &&& after.input() == ark.input()
                        &&& says(
                            phase,
                            ark.resync(),
                            Host { outcome: Outcome::Absorbed, ..served },
                            PROBE_ID,
                            after,
                            moved,
                        )
                    }
                },
                Ok(Fed::Terminated) => if !paired(served@, cut(ark.phase())) {
                    read == Err::<Option<Summary>, Divergence>(Divergence::Session)
                } else {
                    read == Ok::<Option<Summary>, Divergence>(
                        Some(Summary { state: served.state, ..served.summary }),
                    )
                },
            }
        }
}

/// A message that the Ark delivers has to be the one that the model expects. A reply goes
/// out if it stands for a number, the session having to be able to seal it.
spec fn delivers<'a>(
    ark: Ark,
    host: Host<'a>,
    message: Seq<u8>,
    phase: server::Phase,
    after: Ark,
    moved: Host<'a>,
    turned: Result<Option<Summary>, Divergence>,
) -> bool {
    let expected = match super::tag_of(message) {
        Some(id) => Outcome::Message(id),
        None => Outcome::Undecodable,
    };
    if host.outcome != expected {
        turned == Err::<Option<Summary>, Divergence>(Divergence::Surfaced)
    } else if super::tag_of(message) is Some && !agreed(host@, phase) {
        turned == Err::<Option<Summary>, Divergence>(Divergence::Sent)
    } else {
        &&& turned == Ok::<Option<Summary>, Divergence>(None)
        &&& match super::tag_of(message) {
            Some(id) => says(phase, ark.resync(), host.heard(), id, after, moved),
            None => {
                &&& after.phase() == phase
                &&& after.resync() == ark.resync()
                &&& moved == (Host { outcome: Outcome::Absorbed, ..host })
            },
        }
    }
}

/// The Ark takes the next frame in front of it and reacts to it. What it writes gets out
/// on a working transport, what it delivers is answered. Without a frame it reads.
#[verifier::opaque]
spec fn turns<'a>(
    ark: Ark,
    host: Host<'a>,
    after: Ark,
    moved: Host<'a>,
    turned: Result<Option<Summary>, Divergence>,
) -> bool {
    let input = framing::past_oversized(ark.input());
    match framing::next_item(input) {
        None => exists|at: Ark|
            {
                &&& at.input() == framing::after_item(input)
                &&& at.phase() == ark.phase()
                &&& at.resync() == ark.resync()
                &&& #[trigger] reads(at, host, after, moved, turned)
                &&& same(ark, after)
            },
        Some(item) => exists|step: server::Step, phase: server::Phase, next: Attestation|
            {
                &&& #[trigger] server::reacts(
                    ark.phase(),
                    framing::arrival(item),
                    ark.attester(),
                    ark.signer(),
                    ark.timestamp(),
                    ark.resync(),
                    step,
                    phase,
                    next,
                )
                &&& after.input() == framing::after_item(input)
                &&& after.signer() == ark.signer()
                &&& after.timestamp() == ark.timestamp()
                &&& after.attester() == next
                &&& match step {
                    server::Step::Again => {
                        &&& turned == Ok::<Option<Summary>, Divergence>(None)
                        &&& after.phase() == phase
                        &&& after.resync() == ark.resync()
                        &&& moved == host
                    },
                    server::Step::Write(bytes) => {
                        &&& turned == Ok::<Option<Summary>, Divergence>(None)
                        &&& moved == (Host { outbox: moved.outbox, ..host })
                        &&& moved.outbox.bytes() == if host.broken {
                            host.outbox.bytes()
                        } else {
                            host.outbox.bytes() + bytes@
                        }
                        &&& after.phase() == if host.broken && phase is AwaitAck {
                            server::Phase::Idle
                        } else {
                            phase
                        }
                        &&& after.resync() == host.broken
                    },
                    server::Step::Message(message) => delivers(
                        ark,
                        host,
                        message@,
                        phase,
                        after,
                        moved,
                        turned,
                    ),
                    server::Step::Read => false,
                }
            },
    }
}

/// Serves a read of the Ark from the script. The send path is probed whenever the script
/// hands control back, and the run is over once the script is.
#[verifier::spinoff_prover]
#[verifier::rlimit(30)]
fn read(ark: &mut Ark, host: &mut Host) -> (read: Result<Option<Summary>, Divergence>)
    requires
        old(ark).output() == server::Output::Settled,
        old(host).follows(),
    ensures
        match read {
            Ok(None) => {
                &&& final(ark).output() == server::Output::Settled
                &&& final(host).follows()
                &&& final(host).steps == old(host).steps
                &&& final(host).limit == old(host).limit
                &&& final(host).next > old(host).next || final(host).next == old(host).next
                    && final(host).bytes@.len() < old(host).bytes@.len()
            },
            Ok(Some(summary)) => summarizes(summary, old(host).steps@),
            Err(_) => true,
        },
        reads(*old(ark), *old(host), *final(ark), *final(host), read),
        same(*old(ark), *final(ark)),
        junk_fits(old(host).steps@) && level(*old(ark), *old(host)) && (old(host).bytes@.len() == 0
            ==> cobs::zero_free(old(ark).input().pending)) ==> match read {
            Ok(None) => level(*final(ark), *final(host)),
            Ok(Some(_)) => true,
            Err(_) => old(host).misses() && !unanswered(old(host).steps@),
        },
{
    let ghost easy = junk_fits(host.steps@) && level(*ark, *host) && (host.bytes@.len() == 0
        ==> cobs::zero_free(ark.input().pending));
    let ghost stood = stance(*ark);
    let fed = host.feed(Ghost(stance(*ark)));
    let ghost given = fed;
    let ghost served = *host;
    assert(old(host).feeds(served, given));
    proof {
        reveal(reads);
    }
    match fed {
        Err(divergence) => Err(divergence),
        Ok(Fed::Bytes(bytes)) => {
            ark.feed(bytes.as_slice());
            assert(stance(*ark) == (Stance { stub: stood.stub + bytes@, ..stood }));
            proof {
                if easy {
                    lemma_level_fed(*old(ark), *old(host), bytes@, *ark, *host);
                }
            }
            Ok(None)
        },
        // Probe the send path whenever the script hands control back
        Ok(Fed::Yield) => {
            ark.interrupt();
            let ghost stopped = *ark;
            let ghost probed = Host { outcome: Outcome::Absorbed, ..served };
            proof {
                if easy {
                    lemma_level_stopped(*old(ark), *old(host), stopped, served);
                }
            }
            if let Err(divergence) = host.surfaced(Outcome::Yield) {
                return Err(divergence);
            }
            if let Err(divergence) = check_session(ark, host) {
                return Err(divergence);
            }
            if let Err(divergence) = send(ark, host, PROBE_ID) {
                return Err(divergence);
            }
            proof {
                assert(host@ == served@.answered()) by {
                    reveal(Model::answered);
                }
                if easy {
                    lemma_level_said(stopped, probed, PROBE_ID, *ark, *host);
                }
            }
            Ok(None)
        },
        Ok(Fed::Terminated) => {
            ark.interrupt();
            assert(easy ==> served.state == stance(*ark).state);
            if let Err(divergence) = check_session(ark, host) {
                return Err(divergence);
            }
            Ok(Some(Summary { state: host.state, ..host.summary }))
        },
    }
}

/// Lets the Ark take the next frame in front of it, or serves its read if there is none.
#[verifier::spinoff_prover]
#[verifier::rlimit(30)]
fn turn(ark: &mut Ark, host: &mut Host) -> (turned: Result<Option<Summary>, Divergence>)
    requires
        old(ark).output() == server::Output::Settled,
        old(host).follows(),
    ensures
        match turned {
            Ok(None) => {
                &&& final(ark).output() == server::Output::Settled
                &&& final(host).follows()
                &&& final(host).steps == old(host).steps
                &&& final(host).limit == old(host).limit
                &&& shrinks(*old(ark), *old(host), *final(ark), *final(host))
            },
            Ok(Some(summary)) => summarizes(summary, old(host).steps@),
            Err(_) => true,
        },
        turns(*old(ark), *old(host), *final(ark), *final(host), turned),
        final(ark).signer() == old(ark).signer(),
        final(ark).timestamp() == old(ark).timestamp(),
        junk_fits(old(host).steps@) && level(*old(ark), *old(host)) ==> match turned {
            Ok(None) => mistakes(*old(ark), *old(host)) || level(*final(ark), *final(host)),
            Ok(Some(_)) => true,
            Err(_) => misreads(*old(ark), *old(host)) && !unanswered(old(host).steps@),
        },
        unanswered(old(host).steps@) && level(*old(ark), *old(host)) ==> !mistakes(
            *old(ark),
            *old(host),
        ),
{
    let ghost easy = junk_fits(host.steps@) && level(*ark, *host);
    let ghost found = framing::first_zero(ark.input().pending + host.bytes@);
    proof {
        framing::lemma_taking_shortens(ark.input());
        if level(*ark, *host) {
            lemma_found(*ark, *host);
            framing::lemma_first_zero(ark.input().pending + host.bytes@);
        }
    }
    let step = ark.next_message();
    let ghost at = *ark;
    let ghost front = easy && 0 < found < old(ark).input().pending.len() && !mistakes(
        *old(ark),
        *old(host),
    );
    proof {
        reveal(turns);
        if unanswered(host.steps@) && level(*old(ark), *old(host)) {
            lemma_meek_heeds(*old(ark), *old(host));
        }
    }
    match step {
        server::Step::Again => {
            proof {
                if front {
                    lemma_level_on(*old(ark), *host, step, ark.phase(), *ark, *host);
                } else if easy && found == 0 && found < old(ark).input().pending.len() {
                    lemma_level_reset(*old(ark), *host, *ark);
                }
            }
            Ok(None)
        },
        server::Step::Write(bytes) => {
            let ghost given = server::Step::Write(bytes);
            let _ = write(ark, host, bytes);
            proof {
                if front {
                    assert(wrote(given->Write_0@, at.phase(), *old(host), *ark, *host));
                    lemma_level_on(*old(ark), *old(host), given, at.phase(), *ark, *host);
                }
            }
            Ok(None)
        },
        server::Step::Message(message) => {
            proof {
                host.lemma_delivered();
                lemma_answered(host@);
                if front {
                    lemma_level_message(*old(ark), *host, message, at.phase(), at);
                    lemma_nothing_left(*old(ark), *host);
                }
            }
            let served = serve(ark, host, message.as_slice());
            if let Err(divergence) = served {
                assert(delivers(
                    *old(ark),
                    *old(host),
                    message@,
                    at.phase(),
                    *ark,
                    *host,
                    Err(divergence),
                ));
                return Err(divergence);
            }
            proof {
                lemma_follows_on(*old(host), *host);
                assert(delivers(
                    *old(ark),
                    *old(host),
                    message@,
                    at.phase(),
                    *ark,
                    *host,
                    Ok(None),
                ));
                if front {
                    if let Some(id) = super::tag_of(message@) {
                        lemma_level_said(at, old(host).heard(), id, *ark, *host);
                    }
                }
            }
            Ok(None)
        },
        server::Step::Read => read(ark, host),
    }
}

/// Kind of the frame that the last step completed.
spec fn due_now(host: Host) -> Kind {
    due(ran(host.steps@, host.next - 1), host.steps@[host.next - 1])
}

/// The Ark takes the frame in front of it for something else than it stands for, which is
/// neither a hello nor a message that was sealed in a session: it does not open an ack, or
/// it reads or opens something else.
spec fn errs(ark: Ark, host: Host) -> bool {
    &&& mistakes(ark, host)
    &&& !(ark.phase() is Established && (due_now(host) is Request || due_now(host) is Garbage))
    &&& !(ark.phase() is AwaitHello && due_now(host) is Hello)
}

/// The Ark opens the ack in front of it, but one of the two key exchanges of the handshake
/// does not agree: the sides do not arrive at the same key material.
spec fn discords(ark: Ark, host: Host) -> bool {
    &&& framing::next_item(framing::past_oversized(ark.input())) matches Some(item)
    &&& framing::arrival(item) matches framing::Arrival::Packet(packet)
    &&& ark.phase() matches server::Phase::AwaitAck(answered)
    &&& handshake::ack_context(packet, answered, keys::xdsa_public(ark.signer())) matches Some(
        context,
    )
    &&& host.session matches Some(session)
    &&& {
        ||| context != sealing::sender_context(session.sender)
        ||| sealing::receiver_context(session.receiver) != sealing::sender_context(answered.sender)
    }
}

/// A handshake between the sides goes wrong, or something opens that was not sealed for it:
/// the Ark takes a frame for something else than it stands for, other than a hello or a
/// message sealed in a session, or the host does not open an ArkHello, or a key exchange
/// does not agree.
spec fn misled(ark: Ark, host: Host) -> bool {
    ||| errs(ark, host)
    ||| discords(ark, host)
    ||| host.misses_hello()
}

/// What the Ark has sealed the host has opened, or is about to: the reply written last.
spec fn replies<'a>(session: Session, host: Host<'a>) -> bool {
    &&& host.session matches Some(other)
    &&& if host.emits@.len() > 0 && host.emits@.last() is Reply {
        &&& sealing::receiver_context(other.receiver) == sealing::sender_context(session.sender)
        &&& sealing::sender_sequence(session.sender) == sealing::receiver_sequence(other.receiver)
            + 1
        &&& host.written().len() == host.emits@.len()
        &&& super::holds(
            sealing::sender_context(session.sender),
            sealing::receiver_sequence(other.receiver),
            host.written().last(),
            super::tagged(host.emits@.last()->Reply_0),
        )
    } else {
        sealing::in_step(session.sender, other.receiver)
    }
}

/// Both sides of a session are in step, nothing complete being in front of the Ark.
spec fn tuned<'a>(phase: server::Phase, host: Host<'a>) -> bool {
    match phase {
        server::Phase::Established(session) => {
            &&& replies(session, host)
            &&& host.session matches Some(other)
            &&& sealing::in_step(other.sender, session.receiver)
        },
        _ => host.emits@.len() > 0 ==> !(host.emits@.last() is Reply),
    }
}

/// The frame in front of the Ark holds a message that the host sealed at the position of
/// the Ark's session.
spec fn posts<'a>(session: Session, host: Host<'a>, body: Seq<u8>, message: Seq<u8>) -> bool {
    &&& host.session matches Some(other)
    &&& sealing::in_step(session.sender, other.receiver)
    &&& sealing::sender_context(other.sender) == sealing::receiver_context(session.receiver)
    &&& sealing::sender_sequence(other.sender) == sealing::receiver_sequence(session.receiver) + 1
    &&& super::holds(
        sealing::receiver_context(session.receiver),
        sealing::receiver_sequence(session.receiver),
        body,
        message,
    )
}

/// What the host has of a handshake was not used yet, the hello that it keeps is one, and
/// all it expects of the Ark is one frame, maybe behind a recovery.
spec fn orderly<'a>(host: Host<'a>) -> bool {
    &&& match host.last_hello {
        Some((framed, _)) => readable(framed@.drop_last()),
        None => true,
    }
    &&& host.pending matches Some(pending) ==> sealing::receiver_sequence(pending.receiver) == 0
    &&& forall|i: int|
        0 <= i < host.emits@.len() - 1 ==> #[trigger] host.emits@[i] == Emit::Recovery
}

/// Both sides of a session are in step, up to the frame in front of the Ark.
#[verifier::opaque]
spec fn attuned<'a>(phase: server::Phase, pending: Seq<u8>, host: Host<'a>) -> bool {
    let found = framing::first_zero(pending);
    &&& orderly(host)
    &&& if found >= pending.len() {
        &&& tuned(phase, host)
        &&& host.partial is Hello ==> readable(pending)
    } else {
        &&& host.emits@.len() > 0 ==> !(host.emits@.last() is Reply)
        &&& found > 0 ==> match (phase, due_now(host)) {
            (server::Phase::AwaitHello, Kind::Hello) => readable(pending.take(found)),
            (server::Phase::AwaitAck(_), Kind::Ack) => {
                &&& host.session matches Some(session)
                &&& sealing::sender_sequence(session.sender) == 0
                &&& sealing::receiver_sequence(session.receiver) == 0
            },
            (server::Phase::Established(session), Kind::Request(id)) => posts(
                session,
                host,
                pending.take(found),
                super::tagged(id),
            ),
            (server::Phase::Established(session), Kind::Garbage) => posts(
                session,
                host,
                pending.take(found),
                seq![7u8],
            ),
            _ => true,
        }
    }
}

/// A message sealed in a session is taken for what it is by an Ark that is in step.
#[verifier::spinoff_prover]
#[verifier::rlimit(30)]
proof fn lemma_post_arrives<'a>(
    ark: Ark,
    host: Host<'a>,
    after: Ark,
    moved: Host<'a>,
    turned: Result<Option<Summary>, Divergence>,
)
    requires
        level(ark, host),
        host.wf(),
        attuned(ark.phase(), ark.input().pending + host.bytes@, host),
        turns(ark, host, after, moved, turned),
        mistakes(ark, host),
    ensures
        errs(ark, host),
{
    lemma_found(ark, host);
    reveal(turns);
    reveal(attuned);
    let pending = ark.input().pending + host.bytes@;
    let found = framing::first_zero(pending);
    let body = pending.take(found);
    framing::lemma_first_zero(pending);
    assert(fronted(body, pending.skip(found + 1), stance(ark), host)) by {
        reveal(Host::poised);
    }
    if let server::Phase::Established(session) = ark.phase() {
        let context = sealing::receiver_context(session.receiver);
        let sequence = sealing::receiver_sequence(session.receiver);
        if let Kind::Request(id) = due_now(host) {
            assert(posts(session, host, body, super::tagged(id)));
            super::lemma_holds(context, sequence, body, super::tagged(id));
            super::law_tag_reads_back(id);
        } else if due_now(host) is Garbage {
            assert(posts(session, host, body, seq![7u8]));
            super::lemma_holds(context, sequence, body, seq![7u8]);
        }
    }
}

/// The host takes in recoveries without any change to what it has of a session.
proof fn lemma_recovers<'a>(host: Host<'a>, hosts: Seq<Host<'a>>, at: int)
    requires
        orderly(host),
        host.sees_all(hosts),
        0 <= at < hosts.len(),
        at < host.emits@.len() || at == 0,
    ensures
        hosts[at].session == host.session,
        hosts[at].pending == host.pending,
        hosts[at].state == host.state,
        hosts[at].partial == host.partial,
    decreases at,
{
    reveal(Host::saw);
    if at > 0 {
        lemma_recovers(host, hosts, at - 1);
        assert(host.emits@[at - 1] == Emit::Recovery);
        assert(hosts[at - 1].saw(host.written()[at - 1], host.emits@[at - 1], hosts[at]));
    }
}

/// A host that takes in what the Ark wrote is in step with it.
#[verifier::spinoff_prover]
#[verifier::rlimit(30)]
proof fn lemma_ingests_tuned<'a>(phase: server::Phase, host: Host<'a>, seen: Host<'a>)
    requires
        orderly(host),
        tuned(phase, host),
        host.ingests(seen),
    ensures
        orderly(seen),
        tuned(phase, seen),
        seen.emits@ == Seq::<Emit>::empty(),
        seen.state == host.state,
        seen.resync == host.resync,
        seen.partial == host.partial,
        seen.outbox.bytes() == Seq::<u8>::empty(),
{
    reveal(Host::ingests);
    reveal(Host::saw);
    reveal(ackable);
    let hosts = choose|hosts: Seq<Host<'a>>| #[trigger]
        host.sees_all(hosts) && hosts.len() == host.emits@.len() + 1 && hosts.last() == seen;
    let last = host.emits@.len() - 1;
    lemma_emptied(host, hosts, hosts.len() - 1);
    if last >= 0 {
        lemma_recovers(host, hosts, last);
        assert(hosts[last].saw(host.written()[last], host.emits@[last], hosts[last + 1]));
    }
}

/// The host that takes in what the Ark wrote expects nothing more.
proof fn lemma_emptied<'a>(host: Host<'a>, hosts: Seq<Host<'a>>, at: int)
    requires
        host.sees_all(hosts),
        0 <= at < hosts.len(),
    ensures
        hosts[at].emits@ == Seq::<Emit>::empty(),
        hosts[at].outbox.bytes() == Seq::<u8>::empty(),
        hosts[at].state == host.state,
        hosts[at].partial == host.partial,
        hosts[at].bytes == host.bytes,
        hosts[at].steps == host.steps,
        hosts[at].next == host.next,
        hosts[at].limit == host.limit,
        hosts[at].resync == host.resync,
        hosts[at].last_hello == host.last_hello,
    decreases at,
{
    reveal(Host::saw);
    if at > 0 {
        lemma_emptied(host, hosts, at - 1);
        assert(hosts[at - 1].saw(host.written()[at - 1], host.emits@[at - 1], hosts[at]));
    }
}

/// A reply that is expected of an Ark in step is opened.
#[verifier::spinoff_prover]
#[verifier::rlimit(30)]
proof fn lemma_reply_opens<'a>(phase: server::Phase, host: Host<'a>)
    requires
        orderly(host),
        tuned(phase, host),
        host.deaf(),
    ensures
        host.deaf_to_hello(),
{
    reveal(Host::deaf);
    reveal(Host::deaf_to_hello);
    let hosts = choose|hosts: Seq<Host<'a>>|
        {
            let at = hosts.len() - 1;
            &&& #[trigger] host.sees_all(hosts)
            &&& hosts.len() <= host.emits@.len()
            &&& host.emits@[at] == Emit::ArkHello || host.emits@[at] is Reply
            &&& hosts.last().unseen(host.written()[at], host.emits@[at])
        };
    let at = hosts.len() - 1;
    if host.emits@[at] is Reply {
        assert(at == host.emits@.len() - 1);
        lemma_recovers(host, hosts, at);
        let id = host.emits@[at]->Reply_0;
        let sender = phase->Established_0.sender;
        let session = host.session->0;
        let context = sealing::sender_context(sender);
        let sequence = sealing::receiver_sequence(session.receiver);
        reveal(Host::reply_in);
        super::lemma_holds(context, sequence, host.written()[at], super::tagged(id));
        super::law_tag_reads_back(id);
    }
}

/// A message that was sent on the Ark's behalf leaves both sides in step.
#[verifier::spinoff_prover]
#[verifier::rlimit(30)]
proof fn lemma_says_tuned<'a>(
    phase: server::Phase,
    resync: bool,
    host: Host<'a>,
    id: u64,
    after: Ark,
    moved: Host<'a>,
)
    requires
        orderly(host),
        tuned(phase, host),
        host.emits@ == Seq::<Emit>::empty(),
        host.outbox.bytes() == Seq::<u8>::empty(),
        host.resync == resync,
        host.state == state_of(phase),
        !spent(phase),
        says(phase, resync, host, id, after, moved),
    ensures
        orderly(moved),
        tuned(after.phase(), moved),
        moved.partial == host.partial,
{
    reveal(says);
    assert(moved.emits@ == moved@.emits && host.emits@ == host@.emits);
    assert(moved.session is Some == moved@.session && host.session is Some == host@.session);
    if let server::Phase::Established(session) = phase {
        if !spent(phase) && !host.broken {
            reveal(replied);
            let none = Seq::<u8>::empty();
            let packet = session.next_packet(super::tagged(id));
            let body = cobs::cobs_encoded(packet);
            let tail = body + seq![0u8];
            framing::lemma_piece(none);
            framing::lemma_piece(body);
            assert(none + seq![0u8] =~= seq![0u8]);
            framing::lemma_pieces(seq![0u8], tail);
            if resync {
                assert(moved.outbox.bytes() =~= seq![0u8] + tail);
            } else {
                assert(moved.outbox.bytes() =~= tail);
            }
            assert(moved.emits@ =~= recovered(Seq::empty(), resync).push(Emit::Reply(id)));
            assert(moved.written().last() == body);
        }
    }
}

/// The Ark takes the frame in front of it for what it is, and both sides stay in step.
#[verifier::spinoff_prover]
#[verifier::rlimit(60)]
proof fn lemma_front_attuned<'a>(ark: Ark, host: Host<'a>, after: Ark, moved: Host<'a>)
    requires
        level(ark, host),
        host.wf(),
        host.next <= MAX_STEPS,
        attuned(ark.phase(), ark.input().pending + host.bytes@, host),
        0 < framing::first_zero(ark.input().pending + host.bytes@) < ark.input().pending.len(),
        turns(ark, host, after, moved, Ok(None)),
        !mistakes(ark, host),
        !discords(ark, host),
    ensures
        attuned(after.phase(), after.input().pending + moved.bytes@, moved),
{
    lemma_found(ark, host);
    reveal(turns);
    reveal(attuned);
    let pending = ark.input().pending + host.bytes@;
    let found = framing::first_zero(pending);
    let body = pending.take(found);
    let rest = pending.skip(found + 1);
    framing::lemma_first_zero(pending);
    assert(fronted(body, rest, stance(ark), host)) by {
        reveal(Host::poised);
    }
    lemma_front(body, rest, stance(ark), host);
    lemma_rest(rest);
    let arrival = framing::arrival(framing::Item::Frame(body));
    let (step, phase, next) = choose|step: server::Step, phase: server::Phase, next: Attestation|
        {
            &&& #[trigger] server::reacts(
                ark.phase(),
                arrival,
                ark.attester(),
                ark.signer(),
                ark.timestamp(),
                ark.resync(),
                step,
                phase,
                next,
            )
            &&& after.attester() == next
            &&& match step {
                server::Step::Again => after.phase() == phase && moved == host,
                server::Step::Write(bytes) => {
                    &&& moved == (Host { outbox: moved.outbox, ..host })
                    &&& after.phase() == if host.broken && phase is AwaitAck {
                        server::Phase::Idle
                    } else {
                        phase
                    }
                },
                server::Step::Message(message) => delivers(
                    ark,
                    host,
                    message@,
                    phase,
                    after,
                    moved,
                    Ok(None),
                ),
                server::Step::Read => false,
            }
        };
    lemma_reaction(ark, body, step, phase, next, host.broken);
    let came = canon(stance(ark).state, host.broken, due_now(host));
    assert(rest.len() == 0 || rest =~= seq![0u8]);
    match came {
        Kind::Request(id) => {
            let session = ark.phase()->Established_0;
            assert(posts(session, host, body, super::tagged(id)));
            assert(tuned(phase, host.heard()));
            assert(host.outbox.bytes() == Seq::<u8>::empty());
            assert(says(phase, ark.resync(), host.heard(), id, after, moved));
            lemma_says_tuned(phase, ark.resync(), host.heard(), id, after, moved);
            assert(moved.bytes == host.bytes) by {
                reveal(says);
            }
        },
        Kind::Garbage => {
            let session = ark.phase()->Established_0;
            assert(posts(session, host, body, seq![7u8]));
        },
        _ => {},
    }
}

/// The Ark takes a reset, and nothing is left to be in step.
proof fn lemma_reset_attuned<'a>(ark: Ark, host: Host<'a>, after: Ark, moved: Host<'a>)
    requires
        level(ark, host),
        host.wf(),
        attuned(ark.phase(), ark.input().pending + host.bytes@, host),
        framing::first_zero(ark.input().pending + host.bytes@) == 0,
        ark.input().pending.len() > 0,
        turns(ark, host, after, moved, Ok(None)),
    ensures
        attuned(after.phase(), after.input().pending + moved.bytes@, moved),
{
    lemma_found(ark, host);
    reveal(turns);
    reveal(attuned);
    let pending = ark.input().pending + host.bytes@;
    assert(zeros(pending.skip(1)) && host.partial is Boundary) by {
        reveal(Host::poised);
    }
    lemma_rest(pending.skip(1));
    assert(framing::arrival(framing::Item::Frame(pending.take(0))) is Reset);
}

/// Where the bytes of a step end.
#[verifier::spinoff_prover]
#[verifier::rlimit(30)]
proof fn lemma_step_ends<'a>(seen: Host<'a>, made: Host<'a>, step: Step)
    requires
        seen.wf(),
        seen.bytes@.len() == 0,
        made.took(seen, step),
        !(step is Yield),
    ensures
        if puts_frame(seen@, step) {
            made.bytes@.len() > 0 && made.bytes@.last() == 0
        } else if step is Partial {
            cobs::zero_free(made.bytes@) && made.bytes@.len() > 0
        } else {
            made.bytes@.len() == 0
        },
{
    reveal(Host::queued);
    reveal(Host::shaped);
    reveal(repeatable);
    reveal(whole);
    assert(made.added(seen) =~= made.bytes@);
}

/// A step leaves both sides in step, up to the frame that it puts in front of the Ark.
#[verifier::spinoff_prover]
#[verifier::rlimit(60)]
proof fn lemma_moves_attuned<'a>(
    phase: server::Phase,
    stub: Seq<u8>,
    seen: Host<'a>,
    made: Host<'a>,
    after: Host<'a>,
)
    requires
        orderly(seen),
        tuned(phase, seen),
        seen.wf(),
        seen.emits@ == Seq::<Emit>::empty(),
        seen.outbox.bytes() == Seq::<u8>::empty(),
        seen.bytes@.len() == 0,
        seen.state == state_of(phase),
        cobs::zero_free(stub),
        seen.partial is Boundary <==> stub.len() == 0,
        seen.partial is Hello ==> readable(stub),
        seen.next < seen.limit,
        seen@ == ran(seen.steps@, seen.next as int),
        made.took(seen, seen.steps@[seen.next as int]),
        !(seen.steps@[seen.next as int] is Yield),
        seen.paused(made),
        after == (Host { next: (made.next + 1) as usize, ..made }),
    ensures
        attuned(phase, stub + after.bytes@, after),
        after.bytes@.len() == 0 ==> {
            &&& after.state == seen.state
            &&& after.resync == seen.resync
            &&& after.partial is Boundary <==> stub.len() == 0
        },
{
    let step = seen.steps@[seen.next as int];
    let model = seen@;
    let pending = stub + after.bytes@;
    reveal(attuned);
    lemma_step_ends(seen, made, step);
    lemma_executed(model, step);
    framing::lemma_first_zero(pending);
    assert(after@ == model.executed(step));
    assert(after.emits@ == after@.emits && seen.emits@ == seen@.emits);
    assert(after.partial.stub() == after@.partial && seen.partial.stub() == seen@.partial);
    assert(after.session is Some == after@.session && seen.session is Some == seen@.session);
    assert(after.pending is Some == after@.pending && seen.pending is Some == seen@.pending);
    assert(due_now(after) == due(model, step));
    if puts_frame(model, step) {
        lemma_effect(noted(model, step), kind_for(model, step));
        if step is ResetPair {
            lemma_effect(model.delivered(Kind::Empty), Kind::Empty);
        }
        lemma_step_seals(phase, stub, seen, made, after);
        let none = Seq::<Emit>::empty();
        let front = recovered(none, model.resync);
        assert(after.emits@ == none || after.emits@ == front.push(Emit::ArkHello) || after.emits@
            == front.push(Emit::Dropped));
        assert(orderly(after));
        assert(after.emits@.len() > 0 ==> !(after.emits@.last() is Reply));
        assert(framing::first_zero(pending) < pending.len()) by {
            if framing::first_zero(pending) >= pending.len() {
                assert(pending.take(pending.len() as int) =~= pending);
                assert(pending[pending.len() - 1] == 0);
            }
        }
    } else {
        reveal(Host::queued);
        if after.bytes@.len() == 0 {
            assert(pending =~= stub);
        }
        assert(cobs::zero_free(pending));
        lemma_incomplete(pending);
        assert(orderly(after));
        assert(tuned(phase, after));
        if step is Partial && seen.partial is Boundary {
            assert(made.added(seen) =~= made.bytes@);
            assert(pending =~= made.bytes@);
        }
    }
}

/// What a frame that a step puts in front of the Ark leaves of a session.
#[verifier::spinoff_prover]
#[verifier::rlimit(60)]
proof fn lemma_step_seals<'a>(
    phase: server::Phase,
    stub: Seq<u8>,
    seen: Host<'a>,
    made: Host<'a>,
    after: Host<'a>,
)
    requires
        orderly(seen),
        tuned(phase, seen),
        seen.emits@ == Seq::<Emit>::empty(),
        seen.bytes@.len() == 0,
        seen.state == state_of(phase),
        seen.partial is Boundary <==> stub.len() == 0,
        seen.partial is Hello ==> readable(stub),
        made.bytes@.len() > 0,
        made.bytes@.last() == 0,
        made.took(seen, seen.steps@[seen.next as int]),
        puts_frame(seen@, seen.steps@[seen.next as int]),
        after == (Host { next: (made.next + 1) as usize, ..made }),
    ensures
        after.pending matches Some(pending) ==> sealing::receiver_sequence(pending.receiver) == 0,
        match after.last_hello {
            Some((framed, _)) => readable(framed@.drop_last()),
            None => true,
        },
        match (phase, due(seen@, seen.steps@[seen.next as int])) {
            (server::Phase::AwaitHello, Kind::Hello) => {
                let pending = stub + after.bytes@;
                readable(pending.take(framing::first_zero(pending)))
            },
            (server::Phase::AwaitAck(_), Kind::Ack) => {
                &&& after.session matches Some(session)
                &&& sealing::sender_sequence(session.sender) == 0
                &&& sealing::receiver_sequence(session.receiver) == 0
            },
            (server::Phase::Established(session), Kind::Request(id)) => {
                let pending = stub + after.bytes@;
                posts(
                    session,
                    after,
                    pending.take(framing::first_zero(pending)),
                    super::tagged(id),
                )
            },
            (server::Phase::Established(session), Kind::Garbage) => {
                let pending = stub + after.bytes@;
                posts(session, after, pending.take(framing::first_zero(pending)), seq![7u8])
            },
            _ => true,
        },
{
    let step = seen.steps@[seen.next as int];
    reveal(Host::queued);
    reveal(Host::delivered_to);
    reveal(Model::delivered);
    reveal(Model::executed);
    let none = Seq::<u8>::empty();
    assert(made.added(seen) =~= made.bytes@);
    assert(made.session is Some == made@.session && seen.session is Some == seen@.session);
    assert(made.pending is Some == made@.pending && seen.pending is Some == seen@.pending);
    assert(seen.partial.stub() == seen@.partial);
    if step is Hello {
        let kept = made.last_hello->0;
        let pair = kept.1.pair();
        assert(super::packet_frame(pair).drop_last() =~= cobs::cobs_encoded(pair));
    }
    if due(seen@, step) is Hello {
        let body = if step is Reset || step is ResetPair {
            none
        } else {
            made.bytes@.drop_last()
        };
        let rest = if step is ResetPair {
            seq![0u8]
        } else {
            none
        };
        if step is Reset || step is ResetPair {
            assert(stub + none =~= stub);
        } else {
            assert(stub =~= none);
            assert(none + body =~= body);
        }
        assert(stub + made.bytes@ =~= stub + (body + seq![0u8] + rest));
        lemma_complete(stub, body, rest);
    }
    if let server::Phase::Established(session) = phase {
        let other = seen.session->0;
        match due(seen@, step) {
            Kind::Request(id) => {
                let body = cobs::cobs_encoded(other.next_packet(super::tagged(id)));
                assert(stub =~= none);
                assert(made.bytes@ =~= body + seq![0u8] + none);
                lemma_complete(none, body, none);
                assert(none + body =~= body);
                assert(stub + made.bytes@ =~= none + (body + seq![0u8] + none));
            },
            Kind::Garbage => {
                let body = cobs::cobs_encoded(other.next_packet(seq![7u8]));
                assert(stub =~= none);
                assert(made.bytes@ =~= body + seq![0u8] + none);
                lemma_complete(none, body, none);
                assert(none + body =~= body);
                assert(stub + made.bytes@ =~= none + (body + seq![0u8] + none));
            },
            _ => {},
        }
    }
}

/// Steps that put nothing in front of the Ark leave both sides in step, and the one behind
/// them up to its frame.
#[verifier::spinoff_prover]
#[verifier::rlimit(30)]
proof fn lemma_skips_attuned<'a>(
    phase: server::Phase,
    stub: Seq<u8>,
    host: Host<'a>,
    hosts: Seq<Host<'a>>,
    at: int,
)
    requires
        attuned(phase, stub, host),
        host.bytes@.len() == 0,
        host.state == state_of(phase),
        cobs::zero_free(stub),
        host.partial is Boundary <==> stub.len() == 0,
        host.skips(hosts),
        0 <= at < hosts.len(),
    ensures
        attuned(phase, stub + hosts[at].bytes@, hosts[at]),
        hosts[at].bytes@.len() == 0 ==> {
            &&& hosts[at].state == state_of(phase)
            &&& hosts[at].resync == host.resync
            &&& hosts[at].partial is Boundary <==> stub.len() == 0
        },
    decreases at,
{
    reveal(Host::skips);
    if at == 0 {
        assert(stub + host.bytes@ =~= stub);
    } else {
        let before = hosts[at - 1];
        let after = hosts[at];
        lemma_skips_attuned(phase, stub, host, hosts, at - 1);
        assert(before.bytes@.len() == 0 && before.advances(after, Ok(None)));
        assert(stub + before.bytes@ =~= stub);
        lemma_incomplete(stub);
        assert(orderly(before) && tuned(phase, before) && (before.partial is Hello ==> readable(
            stub,
        ))) by {
            reveal(attuned);
        }
        reveal(Host::advances);
        let seen = choose|seen: Host<'a>| #[trigger]
            before.ingests(seen) && before.next < before.limit && before.moves(seen, after);
        lemma_ingests_tuned(phase, before, seen);
        lemma_ingests_paused(before, seen);
        let made = choose|made: Host<'a>|
            {
                &&& #[trigger] made.took(seen, before.steps@[before.next as int])
                &&& seen@ == ran(before.steps@, before.next as int)
                &&& seen.wf()
                &&& seen.paused(made)
                &&& after == (Host { next: (made.next + 1) as usize, ..made })
            };
        lemma_moves_attuned(phase, stub, seen, made, after);
    }
}

/// Where a host stands in front of an Ark that finds no frame.
proof fn lemma_waits<'a>(ark: Ark, host: Host<'a>)
    requires
        level(ark, host),
        host.wf(),
        framing::next_item(framing::past_oversized(ark.input())) is None,
    ensures
        cobs::zero_free(ark.input().pending),
        framing::past_oversized(ark.input()) == ark.input(),
        framing::after_item(ark.input()) == ark.input(),
        host.bytes@.len() == 0 ==> {
            &&& ark.input().pending + host.bytes@ == ark.input().pending
            &&& host.state == state_of(ark.phase())
            &&& host.resync == ark.resync()
            &&& host.partial is Boundary <==> ark.input().pending.len() == 0
        },
{
    lemma_found(ark, host);
    reveal(Host::poised);
    lemma_incomplete(ark.input().pending);
    if host.bytes@.len() == 0 {
        assert(ark.input().pending + host.bytes@ =~= ark.input().pending);
    }
}

/// A message that the host does not open is an ArkHello, if both sides are in step.
proof fn lemma_misses_hello<'a>(ark: Ark, host: Host<'a>)
    requires
        level(ark, host),
        host.wf(),
        attuned(ark.phase(), ark.input().pending + host.bytes@, host),
        framing::next_item(framing::past_oversized(ark.input())) is None,
        host.misses(),
    ensures
        host.misses_hello(),
{
    lemma_waits(ark, host);
    reveal(Host::misses);
    reveal(Host::misses_hello);
    let hosts = choose|hosts: Seq<Host<'a>>|
        {
            &&& #[trigger] host.skips(hosts)
            &&& hosts.last().bytes@.len() == 0
            &&& hosts.last().deaf()
        };
    let stub = ark.input().pending;
    let last = hosts.len() - 1;
    assert(last >= 0) by {
        reveal(Host::skips);
    }
    lemma_skips_attuned(ark.phase(), stub, host, hosts, last);
    assert(stub + hosts[last].bytes@ =~= stub);
    lemma_incomplete(stub);
    assert(orderly(hosts[last]) && tuned(ark.phase(), hosts[last])) by {
        reveal(attuned);
    }
    lemma_reply_opens(ark.phase(), hosts[last]);
}

/// A read of the Ark leaves both sides in step, up to the frame that it finds.
#[verifier::spinoff_prover]
#[verifier::rlimit(60)]
proof fn lemma_read_attuned<'a>(ark: Ark, host: Host<'a>, after: Ark, moved: Host<'a>)
    requires
        level(ark, host),
        host.wf(),
        attuned(ark.phase(), ark.input().pending + host.bytes@, host),
        framing::next_item(framing::past_oversized(ark.input())) is None,
        turns(ark, host, after, moved, Ok(None)),
    ensures
        attuned(after.phase(), after.input().pending + moved.bytes@, moved),
{
    lemma_waits(ark, host);
    reveal(turns);
    reveal(reads);
    let phase = ark.phase();
    let stub = ark.input().pending;
    let at = choose|at: Ark|
        {
            &&& at.input() == ark.input()
            &&& at.phase() == ark.phase()
            &&& at.resync() == ark.resync()
            &&& #[trigger] reads(at, host, after, moved, Ok(None))
        };
    let (served, fed) = choose|served: Host<'a>, fed: Result<Fed, Divergence>|
        {
            &&& #[trigger] host.feeds(served, fed)
            &&& match fed {
                Err(divergence) => false,
                Ok(Fed::Bytes(bytes)) => {
                    &&& after.input() == framing::extended(at.input(), bytes@)
                    &&& after.phase() == at.phase()
                    &&& moved == served
                },
                Ok(Fed::Yield) => {
                    &&& agreed(served@, cut(at.phase()))
                    &&& after.input() == at.input()
                    &&& says(
                        cut(at.phase()),
                        at.resync(),
                        Host { outcome: Outcome::Absorbed, ..served },
                        PROBE_ID,
                        after,
                        moved,
                    )
                },
                Ok(Fed::Terminated) => false,
            }
        };
    match fed {
        Ok(Fed::Bytes(bytes)) => lemma_bytes_attuned(ark, host, served, bytes, after),
        _ => {
            let probed = Host { outcome: Outcome::Absorbed, ..served };
            lemma_yield_tuned(phase, stub, host, served);
            lemma_says_tuned(cut(phase), ark.resync(), probed, PROBE_ID, after, moved);
            assert(moved.bytes == served.bytes) by {
                reveal(says);
            }
            assert(after.input().pending + moved.bytes@ =~= stub);
            lemma_incomplete(stub);
            reveal(attuned);
        },
    }
}

/// A read that gets bytes leaves both sides in step, up to the frame in them.
proof fn lemma_bytes_attuned<'a>(
    ark: Ark,
    host: Host<'a>,
    served: Host<'a>,
    bytes: Vec<u8>,
    after: Ark,
)
    requires
        level(ark, host),
        host.wf(),
        attuned(ark.phase(), ark.input().pending + host.bytes@, host),
        framing::next_item(framing::past_oversized(ark.input())) is None,
        host.feeds(served, Ok(Fed::Bytes(bytes))),
        after.input() == framing::extended(ark.input(), bytes@),
        after.phase() == ark.phase(),
    ensures
        attuned(after.phase(), after.input().pending + served.bytes@, served),
{
    lemma_waits(ark, host);
    reveal(Host::feeds);
    let stub = ark.input().pending;
    let hosts = choose|hosts: Seq<Host<'a>>|
        {
            &&& #[trigger] host.skips(hosts)
            &&& bytes@ + served.bytes@ == hosts.last().bytes@
            &&& served == (Host { bytes: served.bytes, ..hosts.last() })
        };
    let last = hosts.len() - 1;
    assert(last >= 0 && (host.bytes@.len() > 0 ==> last == 0) && hosts[0] == host) by {
        reveal(Host::skips);
        if host.bytes@.len() > 0 && last > 0 {
            assert(hosts[0].bytes@.len() == 0);
        }
    }
    if host.bytes@.len() == 0 {
        lemma_skips_attuned(ark.phase(), stub, host, hosts, last);
    }
    assert(after.input().pending + served.bytes@ =~= stub + hosts[last].bytes@);
    reveal(attuned);
}

/// A read that fails where the script yields leaves both sides in step.
proof fn lemma_yield_tuned<'a>(
    phase: server::Phase,
    stub: Seq<u8>,
    host: Host<'a>,
    served: Host<'a>,
)
    requires
        attuned(phase, stub + host.bytes@, host),
        host.bytes@.len() == 0 ==> {
            &&& stub + host.bytes@ == stub
            &&& host.state == state_of(phase)
            &&& host.partial is Boundary <==> stub.len() == 0
        },
        cobs::zero_free(stub),
        host.feeds(served, Ok(Fed::Yield)),
    ensures
        ({
            let probed = Host { outcome: Outcome::Absorbed, ..served };
            &&& orderly(probed)
            &&& tuned(cut(phase), probed)
            &&& probed.emits@ == Seq::<Emit>::empty()
            &&& probed.outbox.bytes() == Seq::<u8>::empty()
            &&& probed.resync == host.resync
            &&& probed.state == state_of(cut(phase))
            &&& probed.bytes@.len() == 0
            &&& probed.partial is Hello ==> readable(stub)
            &&& host.bytes@.len() == 0
        }),
{
    reveal(Host::feeds);
    reveal(Host::advances);
    let hosts = choose|hosts: Seq<Host<'a>>|
        {
            &&& #[trigger] host.skips(hosts)
            &&& hosts.last().bytes@.len() == 0
            &&& hosts.last().advances(served, Ok(Some(Fed::Yield)))
        };
    let last = hosts.len() - 1;
    assert(last >= 0 && hosts[0] == host && (last > 0 ==> host.bytes@.len() == 0)) by {
        reveal(Host::skips);
        if last > 0 {
            assert(hosts[0].bytes@.len() == 0);
        }
    }
    lemma_skips_attuned(phase, stub, host, hosts, last);
    let before = hosts[last];
    assert(stub + before.bytes@ =~= stub);
    lemma_incomplete(stub);
    assert(orderly(before) && tuned(phase, before) && (before.partial is Hello ==> readable(
        stub,
    ))) by {
        reveal(attuned);
    }
    let seen = choose|seen: Host<'a>|
        {
            &&& #[trigger] before.ingests(seen)
            &&& seen.cut_short(Outcome::Yield, Host { next: before.next, ..served })
        };
    lemma_ingests_tuned(phase, before, seen);
    lemma_ingests_paused(before, seen);
}

/// A turn of the Ark leaves both sides in step, unless a handshake goes wrong or something
/// opens that was not sealed for it.
proof fn lemma_turn_attuned<'a>(
    ark: Ark,
    host: Host<'a>,
    after: Ark,
    moved: Host<'a>,
    turned: Result<Option<Summary>, Divergence>,
)
    requires
        level(ark, host),
        host.wf(),
        attuned(ark.phase(), ark.input().pending + host.bytes@, host),
        turns(ark, host, after, moved, turned),
    ensures
        misreads(ark, host) ==> misled(ark, host),
        turned == Ok::<Option<Summary>, Divergence>(None) && !misled(ark, host) ==> attuned(
            after.phase(),
            after.input().pending + moved.bytes@,
            moved,
        ),
{
    let pending = ark.input().pending + host.bytes@;
    lemma_found(ark, host);
    framing::lemma_first_zero(pending);
    if mistakes(ark, host) {
        lemma_post_arrives(ark, host, after, moved, turned);
    }
    if framing::next_item(framing::past_oversized(ark.input())) is None {
        if host.misses() {
            lemma_misses_hello(ark, host);
        }
        if turned == Ok::<Option<Summary>, Divergence>(None) {
            lemma_read_attuned(ark, host, after, moved);
        }
    } else if turned == Ok::<Option<Summary>, Divergence>(None) && !misled(ark, host) {
        if framing::first_zero(pending) == 0 {
            lemma_reset_attuned(ark, host, after, moved);
        } else {
            lemma_front_attuned(ark, host, after, moved);
        }
    }
}

/// Taking in what the Ark wrote leaves the script where it stands.
proof fn lemma_ingests_paused<'a>(host: Host<'a>, seen: Host<'a>)
    requires
        host.ingests(seen),
    ensures
        seen.steps == host.steps,
        seen.next == host.next,
        seen.limit == host.limit,
        seen.bytes == host.bytes,
{
    reveal(Host::ingests);
    let hosts = choose|hosts: Seq<Host<'a>>| #[trigger]
        host.sees_all(hosts) && hosts.len() == host.emits@.len() + 1 && hosts.last() == seen;
    lemma_emptied(host, hosts, hosts.len() - 1);
}

/// An Ark without a session, which presents a device attestation of its own, in front of
/// a host that knows its identity, the script at its start.
spec fn begins<'a>(steps: Seq<Step>, ark: Ark, host: Host<'a>) -> bool {
    &&& ark.input() == framing::boundary()
    &&& !ark.resync()
    &&& ark.phase() is Idle
    &&& ark.timestamp() is None
    &&& super::hardware_issued(
        ark.attester()@,
        ""@,
        keys::xdsa_public(ark.signer()),
        0,
        0,
        Seq::empty(),
        ""@,
        ark.signer(),
    )
    &&& host@ == Model::start()
    &&& host.steps@ == steps
    &&& host.next == 0
    &&& host.identity == keys::xdsa_public(ark.signer())
    &&& host.apart@
    &&& host.bytes@.len() == 0
    &&& host.outbox.bytes() == Seq::<u8>::empty()
}

/// The Ark and the host from the start of a script, before and after each frame and each
/// read.
spec fn tours<'a>(steps: Seq<Step>, arks: Seq<Ark>, hosts: Seq<Host<'a>>) -> bool {
    &&& arks.len() == hosts.len()
    &&& arks.len() > 0
    &&& begins(steps, arks[0], hosts[0])
    &&& forall|j: int|
        0 <= j < arks.len() - 1 ==> turns(
            #[trigger] arks[j],
            hosts[j],
            arks[j + 1],
            hosts[j + 1],
            Ok(None),
        )
}

/// One more frame is taken, or one more read made.
proof fn lemma_tours_on<'a>(
    steps: Seq<Step>,
    arks: Seq<Ark>,
    hosts: Seq<Host<'a>>,
    ark: Ark,
    host: Host<'a>,
)
    requires
        tours(steps, arks, hosts),
        turns(arks.last(), hosts.last(), ark, host, Ok(None)),
    ensures
        tours(steps, arks.push(ark), hosts.push(host)),
{
    let longer = arks.push(ark);
    let further = hosts.push(host);
    assert forall|j: int| 0 <= j < longer.len() - 1 implies turns(
        #[trigger] longer[j],
        further[j],
        longer[j + 1],
        further[j + 1],
        Ok(None),
    ) by {
        if j < arks.len() - 1 {
            assert(turns(arks[j], hosts[j], arks[j + 1], hosts[j + 1], Ok(None)));
        }
    }
}

/// A message that was not taken for what it was stays so.
proof fn lemma_strays_on<'a>(arks: Seq<Ark>, hosts: Seq<Host<'a>>, ark: Ark, host: Host<'a>)
    requires
        strays(arks, hosts),
        arks.len() == hosts.len(),
    ensures
        strays(arks.push(ark), hosts.push(host)),
{
    let j = choose|j: int| 0 <= j < arks.len() && #[trigger] misled(arks[j], hosts[j]);
    assert(misled(arks.push(ark)[j], hosts.push(host)[j]));
}

/// What the last turn of a run comes to.
spec fn final_turn(summary: Result<Summary, Divergence>) -> Result<Option<Summary>, Divergence> {
    match summary {
        Ok(summary) => Ok(Some(summary)),
        Err(divergence) => Err(divergence),
    }
}

/// The last turn of a run comes to its result.
spec fn turns_out<'a>(ark: Ark, host: Host<'a>, summary: Result<Summary, Divergence>) -> bool {
    exists|after: Ark, moved: Host<'a>| #[trigger]
        turns(ark, host, after, moved, final_turn(summary))
}

/// A run comes to a result with its last turn.
proof fn lemma_turns_out<'a>(
    steps: Seq<Step>,
    arks: Seq<Ark>,
    hosts: Seq<Host<'a>>,
    after: Ark,
    moved: Host<'a>,
    summary: Result<Summary, Divergence>,
)
    requires
        tours(steps, arks, hosts),
        turns(arks.last(), hosts.last(), after, moved, final_turn(summary)),
        summary is Err && junk_fits(steps) ==> strays(arks, hosts),
    ensures
        unfolds(steps, hosts.last().apart@, summary),
{
    assert(turns_out(arks.last(), hosts.last(), summary));
}

/// Whether a run of a script from its start comes to a result, frame by frame and read by
/// read: a run that diverges does so where the Ark first surfaced or emitted something
/// else than the model expects, or the two disagree on whether there is a session. Unless
/// its junk fits no frame, a handshake went wrong by then, or something opened that was not
/// sealed for it. The run is told apart by whether every key that was drawn in place of the
/// right one, to make a flawed ack, was another one.
pub closed spec fn unfolds(
    steps: Seq<Step>,
    apart: bool,
    summary: Result<Summary, Divergence>,
) -> bool {
    exists|arks: Seq<Ark>, hosts: Seq<Host>|
        {
            &&& #[trigger] tours(steps, arks, hosts)
            &&& apart == hosts.last().apart@
            &&& turns_out(arks.last(), hosts.last(), summary)
            &&& summary is Err && junk_fits(steps) ==> strays(arks, hosts)
        }
}

/// Whether a handshake went wrong, or something opened that was not sealed for it.
spec fn strays<'a>(arks: Seq<Ark>, hosts: Seq<Host<'a>>) -> bool {
    exists|j: int| 0 <= j < arks.len() && #[trigger] misled(arks[j], hosts[j])
}

/// Whether every handshake goes right in every run of a script, whatever keys are drawn:
/// the Ark opens the acks, the host opens the ArkHellos, the key exchanges agree, and
/// nothing opens that was not sealed for it. Left out are the runs in which a key drawn in
/// place of the right one happens to be it.
pub closed spec fn faithful(steps: Seq<Step>) -> bool {
    forall|arks: Seq<Ark>, hosts: Seq<Host>| #[trigger]
        tours(steps, arks, hosts) && hosts.last().apart@ ==> !strays(arks, hosts)
}

/// A run goes through in which the messages of every handshake open, its key exchanges
/// agree and nothing else opens, as long as the junk of its script fits frames and every
/// key drawn in place of the right one is another.
pub proof fn law_faithful_runs_through(steps: Seq<Step>, summary: Result<Summary, Divergence>)
    requires
        unfolds(steps, true, summary),
        faithful(steps),
        junk_fits(steps),
    ensures
        summary is Ok,
{
}

/// Runs a script against a real Ark, stopping at any divergence from the model, and
/// reports what the run observed. A script that runs through is summarized as the
/// model says. What a packet comes to rests on fresh keys agreeing and on flawed
/// packets being told apart: a run that diverges, though its junk fits frames, has come to
/// a handshake whose messages did not open or whose key exchanges did not agree, or to
/// something that opened without having been sealed for it. A script that never comes to a
/// hello that the Ark answers runs through.
#[verifier::spinoff_prover]
#[verifier::rlimit(30)]
pub fn run(steps: &[Step]) -> (summary: Result<Summary, Divergence>)
    ensures
        summary matches Ok(summary) ==> summarizes(summary, steps@),
        unanswered(steps@) ==> summary is Ok,
        exists|apart: bool| #[trigger] unfolds(steps@, apart, summary),
{
    let signer = SigningKey::generate();
    let attestation = self_attestation(&signer);
    let mut host = Host::new(steps, signer.public_key());
    let mut ark: Ark = ArkSide::new(signer, attestation);
    let ghost mut arks: Seq<Ark> = seq![ark];
    let ghost mut hosts: Seq<Host> = seq![host];
    assert(tours(steps@, arks, hosts));
    assert(attuned(ark.phase(), ark.input().pending + host.bytes@, host)) by {
        reveal(attuned);
        assert(ark.input().pending + host.bytes@ =~= Seq::<u8>::empty());
        framing::lemma_first_zero(Seq::<u8>::empty());
        assert(host.emits@ == host@.emits);
        assert(host.last_hello is Some == host@.hello);
        assert(host.partial.stub() == host@.partial);
        assert(host.pending is Some == host@.pending);
    }
    loop
        invariant
            ark.output() == server::Output::Settled,
            host.follows(),
            host.steps == steps,
            junk_fits(steps@) ==> strays(arks, hosts) || level(ark, host) && attuned(
                ark.phase(),
                ark.input().pending + host.bytes@,
                host,
            ),
            unanswered(steps@) ==> level(ark, host),
            tours(steps@, arks, hosts),
            arks.last() == ark,
            hosts.last() == host,
        decreases host.limit - host.next, host.bytes@.len(), ark.input().pending.len(),
    {
        proof {
            if unanswered(steps@) {
                lemma_unanswered_fits(steps@);
            }
        }
        let turned = turn(&mut ark, &mut host);
        proof {
            let from = arks.last();
            let stood = hosts.last();
            if level(from, stood) && attuned(
                from.phase(),
                from.input().pending + stood.bytes@,
                stood,
            ) {
                lemma_turn_attuned(from, stood, ark, host, turned);
            }
        }
        assert(misled(arks[arks.len() - 1], hosts[arks.len() - 1]) ==> strays(arks, hosts));
        match turned {
            Ok(None) => {
                proof {
                    lemma_tours_on(steps@, arks, hosts, ark, host);
                    if strays(arks, hosts) {
                        lemma_strays_on(arks, hosts, ark, host);
                    }
                    arks = arks.push(ark);
                    hosts = hosts.push(host);
                }
            },
            Ok(Some(summary)) => {
                proof {
                    lemma_turns_out(steps@, arks, hosts, ark, host, Ok(summary));
                }
                return Ok(summary);
            },
            Err(divergence) => {
                proof {
                    lemma_turns_out(steps@, arks, hosts, ark, host, Err(divergence));
                }
                return Err(divergence);
            },
        }
    }
}

/// State of the model that a server's phase stands for.
pub open spec fn state_of(phase: server::Phase) -> State {
    match phase {
        server::Phase::Idle => State::Idle,
        server::Phase::AwaitHello => State::AwaitHello,
        server::Phase::AwaitAck(_) => State::AwaitAck,
        server::Phase::Established(_) => State::Established,
    }
}

/// Kind of frame that an arrival is to a server in a phase.
pub open spec fn kind_of(
    phase: server::Phase,
    arrival: framing::Arrival,
    identity: VerifyingKey,
) -> Kind {
    match (phase, arrival) {
        (_, framing::Arrival::Reset) => Kind::Empty,
        (server::Phase::AwaitHello, framing::Arrival::Packet(packet)) => {
            if handshake::hello_keys(packet) is Some {
                Kind::Hello
            } else {
                Kind::Junk
            }
        },
        (server::Phase::AwaitAck(pending), framing::Arrival::Packet(packet)) => {
            if handshake::ack_context(packet, pending, identity) is Some {
                Kind::Ack
            } else {
                Kind::Junk
            }
        },
        (server::Phase::Established(session), framing::Arrival::Packet(packet)) => {
            match sealing::message_of(
                sealing::receiver_context(session.receiver),
                sealing::receiver_sequence(session.receiver),
                packet,
            ) {
                Some(message) => match super::tag_of(message) {
                    Some(id) => Kind::Request(id),
                    None => Kind::Garbage,
                },
                None => Kind::Junk,
            }
        },
        _ => Kind::Junk,
    }
}

/// Whether a server's step is what the model expects to be seen of a frame.
pub open spec fn shows(
    before: Model,
    after: Model,
    step: server::Step,
    phase: server::Phase,
) -> bool {
    match step {
        server::Step::Write(_) => after.emits == before.emitting(
            if phase is AwaitAck {
                Emit::ArkHello
            } else {
                Emit::Dropped
            },
        ).emits,
        server::Step::Message(message) => {
            &&& after.emits == before.emits
            &&& after.outcome == match super::tag_of(message@) {
                Some(id) => Outcome::Message(id),
                None => Outcome::Undecodable,
            }
        },
        server::Step::Again => after.emits == before.emits && after.outcome == before.outcome,
        server::Step::Read => false,
    }
}

/// Whether the answer to a hello fits no frame, because of the attestation that is
/// presented in it.
pub open spec fn overlong<A: Attester>(
    arrival: framing::Arrival,
    attester: A,
    signer: SigningKey,
    timestamp: Option<i64>,
    next: A,
) -> bool {
    &&& arrival matches framing::Arrival::Packet(packet)
    &&& handshake::hello_keys(packet) matches Some(hello)
    &&& exists|attest: Seq<u8>|
        {
            &&& attester.presents(attest, &next)
            &&& #[trigger] handshake::unwieldy(attest, signer, hello.1, timestamp)
        }
}

/// The server does what the model says, for every frame in every phase: it moves to
/// the model's state and shows what the model expects. The one thing left to it is
/// to drop a valid hello whose answer fits no frame.
pub proof fn law_server_follows_model<A: Attester>(
    before: server::Phase,
    arrival: framing::Arrival,
    attester: A,
    signer: SigningKey,
    timestamp: Option<i64>,
    resync: bool,
    step: server::Step,
    after: server::Phase,
    next: A,
    model: Model,
)
    requires
        server::reacts(before, arrival, attester, signer, timestamp, resync, step, after, next),
        model.state == state_of(before),
        model.partial is Boundary,
        !model.broken,
        model.resync == resync,
        model.outcome == Outcome::Absorbed,
    ensures
        ({
            let kind = kind_of(before, arrival, keys::xdsa_public(signer));
            let expected = model.delivered(kind);
            ||| state_of(after) == expected.state && shows(model, expected, step, after)
            ||| {
                &&& kind is Hello
                &&& server::drops(resync, step, after)
                &&& overlong(arrival, attester, signer, timestamp, next)
            }
        }),
{
    reveal(Model::delivered);
}

/// Which frames leave the Ark in a session, for every frame in every state of the model:
/// the ack it awaits, and behind that whatever is sealed in the session.
pub proof fn law_delivery_establishes(model: Model, kind: Kind)
    ensures
        model.delivered(kind).state == State::Established <==> model.partial is Boundary && {
            ||| model.state == State::AwaitAck && kind is Ack
            ||| model.state == State::Established && (kind is Request || kind is Garbage)
        },
{
    reveal(Model::delivered);
}

/// What the Ark is to emit for a frame, for every frame in every state of the model:
/// nothing on a broken transport, and otherwise the signal exactly if it ends up idle,
/// the ArkHello exactly if it ends up awaiting an ack, and nothing in its other states.
/// A delimiter comes in front if the last output failed. The frame leaves none
/// unterminated.
pub proof fn law_delivery_emits(model: Model, kind: Kind)
    ensures
        ({
            let after = model.delivered(kind);
            let front = if model.resync {
                model.emits.push(Emit::Recovery)
            } else {
                model.emits
            };
            &&& after.partial is Boundary
            &&& if model.broken {
                after.emits == model.emits
            } else {
                &&& after.emits == front.push(Emit::Dropped) <==> after.state == State::Idle
                &&& after.emits == front.push(Emit::ArkHello) <==> after.state == State::AwaitAck
                &&& after.emits == model.emits <==> after.state == State::AwaitHello
                    || after.state == State::Established
            }
        }),
{
    reveal(Model::delivered);
    let front = if model.resync {
        model.emits.push(Emit::Recovery)
    } else {
        model.emits
    };
    assert(front.push(Emit::Dropped).last() == Emit::Dropped);
    assert(front.push(Emit::ArkHello).last() == Emit::ArkHello);
    assert(front.push(Emit::Dropped).len() == front.len() + 1);
    assert(front.push(Emit::ArkHello).len() == front.len() + 1);
}

/// The size of the pieces in which frames arrive never changes what a run observes.
pub proof fn law_piece_size(steps: Seq<Step>, size: u8, pieced: Summary, whole: Summary)
    requires
        steps.len() < MAX_STEPS,
        summarizes(pieced, seq![Step::Chunk(size)] + steps),
        summarizes(whole, steps),
    ensures
        finished(seq![Step::Chunk(size)] + steps) == finished(steps),
        pieced == whole,
{
    lemma_piece_size(steps, size, steps.len() as int);
}

/// The size of the pieces in which frames arrive never changes whether a script comes to a
/// hello that the Ark answers, and so never keeps one from running through.
#[verifier::spinoff_prover]
#[verifier::rlimit(40)]
pub proof fn law_piece_size_runs_through(steps: Seq<Step>, size: u8)
    requires
        steps.len() < MAX_STEPS,
    ensures
        unanswered(seq![Step::Chunk(size)] + steps) <==> unanswered(steps),
{
    reveal(unanswered);
    let longer = seq![Step::Chunk(size)] + steps;
    assert forall|i: int| 0 <= i < steps.len() implies meek(
        ran(longer, i + 1),
        #[trigger] longer[i + 1],
    ) == meek(ran(steps, i), steps[i]) by {
        lemma_piece_size(steps, size, i);
        assert(longer[i + 1] == steps[i]);
    }
    assert(meek(ran(longer, 0), longer[0])) by {
        reveal(meek);
    }
    if unanswered(steps) {
        assert forall|i: int| 0 <= i < run_length(longer) implies meek(
            ran(longer, i),
            #[trigger] longer[i],
        ) by {
            if i > 0 {
                assert(longer[i - 1 + 1] == longer[i]);
                assert(meek(ran(steps, i - 1), steps[i - 1]));
            }
        }
    }
    if unanswered(longer) {
        assert forall|i: int| 0 <= i < run_length(steps) implies meek(
            ran(steps, i),
            #[trigger] steps[i],
        ) by {
            assert(meek(ran(longer, i + 1), longer[i + 1]));
        }
    }
}

/// The size of the pieces in which frames arrive never changes whether junk fits frames.
#[verifier::spinoff_prover]
#[verifier::rlimit(40)]
proof fn lemma_piece_size_fits(steps: Seq<Step>, size: u8)
    requires
        steps.len() < MAX_STEPS,
        junk_fits(steps),
    ensures
        junk_fits(seq![Step::Chunk(size)] + steps),
{
    reveal(junk_fits);
    let longer = seq![Step::Chunk(size)] + steps;
    assert forall|i: int| 0 <= i < run_length(longer) implies step_fits(
        ran(longer, i),
        #[trigger] longer[i],
    ) by {
        if i > 0 {
            lemma_piece_size(steps, size, i - 1);
            assert(longer[i] == steps[i - 1]);
        }
    }
}

/// A run comes to the same whatever the size of the pieces in which its frames arrive, as
/// long as the messages of every handshake open, its key exchanges agree, nothing else
/// opens, the junk fits frames and every key drawn in place of the right one is another.
pub proof fn law_piece_size_faithful(
    steps: Seq<Step>,
    size: u8,
    pieced: Result<Summary, Divergence>,
    whole: Result<Summary, Divergence>,
)
    requires
        steps.len() < MAX_STEPS,
        junk_fits(steps),
        faithful(steps),
        faithful(seq![Step::Chunk(size)] + steps),
        unfolds(seq![Step::Chunk(size)] + steps, true, pieced),
        unfolds(steps, true, whole),
        pieced matches Ok(pieced) ==> summarizes(pieced, seq![Step::Chunk(size)] + steps),
        whole matches Ok(whole) ==> summarizes(whole, steps),
    ensures
        pieced == whole,
        whole is Ok,
{
    lemma_piece_size_fits(steps, size);
    law_faithful_runs_through(seq![Step::Chunk(size)] + steps, pieced);
    law_faithful_runs_through(steps, whole);
    law_piece_size(steps, size, pieced->Ok_0, whole->Ok_0);
}

/// A script that never comes to a hello that the Ark answers leaves it without a session,
/// no handshake having been made, no message delivered and no reply sent.
#[verifier::spinoff_prover]
#[verifier::rlimit(30)]
pub proof fn law_unanswered_stays_idle(steps: Seq<Step>)
    requires
        unanswered(steps),
    ensures
        finished(steps).state == State::Idle,
        finished(steps).handshakes == 0,
        finished(steps).delivered == 0,
        finished(steps).replies == 0,
{
    lemma_unanswered(steps, run_length(steps));
}

/// Whether a model has neither a session nor a handshake in progress, and nothing to see.
spec fn idles(model: Model) -> bool {
    &&& model.state == State::Idle || model.state == State::AwaitHello
    &&& !model.session && !model.pending && !model.ack && !model.request
    &&& model.outcome == Outcome::Absorbed
    &&& model.emits == Seq::<Emit>::empty()
    &&& model.handshakes == 0
    &&& model.delivered == 0
    &&& model.replies == 0
}

/// The model never leaves its idle states on a script without an answered hello.
#[verifier::spinoff_prover]
#[verifier::rlimit(30)]
proof fn lemma_unanswered(steps: Seq<Step>, count: int)
    requires
        unanswered(steps),
        0 <= count <= run_length(steps),
    ensures
        idles(ran(steps, count)),
    decreases count,
{
    if count > 0 {
        lemma_unanswered(steps, count - 1);
        assert(meek(ran(steps, count - 1), steps[count - 1])) by {
            reveal(unanswered);
        }
        lemma_idles_on(ran(steps, count - 1), steps[count - 1]);
    }
}

/// Without an answered hello only signals are expected.
proof fn lemma_unanswered_emits(steps: Seq<Step>, count: int)
    requires
        unanswered(steps),
        0 <= count <= run_length(steps),
    ensures
        signals(reached(steps, count).emits),
        signals(reached(steps, count).answered().emits),
{
    if count > 0 {
        lemma_unanswered(steps, count - 1);
        assert(meek(ran(steps, count - 1), steps[count - 1])) by {
            reveal(unanswered);
        }
        lemma_idles_on(ran(steps, count - 1), steps[count - 1]);
    } else {
        reveal(Model::answered);
    }
}

/// A step without a hello to answer keeps the model in its idle states.
#[verifier::spinoff_prover]
#[verifier::rlimit(30)]
proof fn lemma_idles_on(model: Model, step: Step)
    requires
        idles(model),
        meek(model, step),
    ensures
        idles(model.executed(step).answered().settled()),
        signals(model.executed(step).emits),
        signals(model.executed(step).answered().emits),
{
    let after = model.executed(step);
    assert(after.delivered == 0) by {
        lemma_step_weight(model, step);
    }
    assert({
        &&& after.state == State::Idle || after.state == State::AwaitHello
        &&& !after.session && !after.pending && !after.ack && !after.request
        &&& signals(after.emits)
        &&& after.handshakes == 0
        &&& after.replies == 0
        &&& if step is Yield {
            after.outcome == Outcome::Yield && after.state == State::Idle
        } else {
            after.outcome == Outcome::Absorbed
        }
    }) by {
        reveal(meek);
        reveal(Model::executed);
        lemma_refuses(model, Kind::Empty);
        lemma_refuses(model, Kind::Junk);
        lemma_refuses(model, Kind::Hello);
        lemma_refuses(Model { hello: true, valid: true, ..model }, Kind::Hello);
        if step is ResetPair {
            lemma_refuses(model.delivered(Kind::Empty), Kind::Empty);
        }
    }
    let answered = after.answered();
    assert(answered == Model { outcome: Outcome::Absorbed, ..after }) by {
        reveal(Model::answered);
    }
    lemma_signals(answered, answered.emits, answered.emits.len() as int);
}

/// A script behind one that sets the size of the pieces leads to where it leads itself.
proof fn lemma_piece_size(steps: Seq<Step>, size: u8, count: int)
    requires
        0 <= count <= steps.len(),
    ensures
        ran(seq![Step::Chunk(size)] + steps, count + 1) == ran(steps, count),
    decreases count,
{
    let longer = seq![Step::Chunk(size)] + steps;
    if count > 0 {
        lemma_piece_size(steps, size, count - 1);
        assert(longer[count] == steps[count - 1]);
    } else {
        let start = Model::start();
        reveal(Model::executed);
        reveal(Model::answered);
        reveal_with_fuel(ran, 2);
        assert(longer[0] == Step::Chunk(size));
        assert(start.executed(longer[0]).answered() == start);
        assert(start.settled() == start) by {
            assert(start.emits =~= Seq::<Emit>::empty());
            assert(start.seeing_all(start.emits, 0) == (Model { emits: Seq::empty(), ..start }));
        }
    }
}

/// Junk is made a frame by taking its zeros away and nothing else: it is as long as before,
/// but at least one byte, and every byte that was not zero stays.
pub proof fn law_zeros_are_mapped_away(junk: Seq<u8>)
    ensures
        zeroless(junk).len() == (if junk.len() == 0 {
            1
        } else {
            junk.len()
        }),
        forall|i: int| 0 <= i < zeroless(junk).len() ==> #[trigger] zeroless(junk)[i] != 0,
        forall|i: int|
            0 <= i < junk.len() && junk[i] != 0 ==> #[trigger] zeroless(junk)[i] == junk[i],
{
}

/// A frame cut short is a beginning of it, of at least one byte and never all of it if it
/// has more than one.
pub proof fn law_cut_keeps_the_front(valid: Seq<u8>, cut: u8)
    requires
        valid.len() > 0,
    ensures
        shortened(valid, cut).is_prefix_of(valid),
        1 <= shortened(valid, cut).len(),
        valid.len() > 1 ==> shortened(valid, cut).len() < valid.len(),
        cut as int + 1 < valid.len() ==> shortened(valid, cut).len() == cut as int + 1,
{
    if valid.len() > 1 {
        vstd::arithmetic::div_mod::lemma_mod_bound(cut as int, valid.len() - 1);
        if cut as int + 1 < valid.len() {
            vstd::arithmetic::div_mod::lemma_small_mod(cut as nat, (valid.len() - 1) as nat);
        }
    }
}

/// A request in a session is delivered once, and answered with a reply of its number. On a
/// broken transport the reply is lost, and the session with it.
pub proof fn law_request_is_answered(model: Model, id: u8)
    requires
        model.state == State::Established,
        model.session,
        model.partial is Boundary,
        model.outcome == Outcome::Absorbed,
    ensures
        ({
            let after = model.executed(Step::Request(id)).answered();
            let front = if model.resync {
                model.emits.push(Emit::Recovery)
            } else {
                model.emits
            };
            &&& after.delivered == model.delivered + 1
            &&& after.outcome == Outcome::Absorbed
            &&& !model.broken ==> after.state == State::Established && after.emits == front.push(
                Emit::Reply(id as u64),
            )
            &&& model.broken ==> after.state == State::Idle && after.emits == model.emits
                && !after.session
        }),
{
    reveal(Model::executed);
    reveal(Model::delivered);
    reveal(Model::answered);
}

/// A read that fails ends a handshake and leaves a session alone, which is probed by one
/// message.
pub proof fn law_yield_probes(model: Model)
    ensures
        ({
            let after = model.executed(Step::Yield).answered();
            let front = if model.resync {
                model.emits.push(Emit::Recovery)
            } else {
                model.emits
            };
            &&& after.delivered == model.delivered
            &&& model.state == State::Established && !model.broken ==> after.state
                == State::Established && after.emits == front.push(Emit::Reply(PROBE_ID))
            &&& model.state != State::Established ==> after.state == State::Idle && after.emits
                == model.emits
        }),
{
    reveal(Model::executed);
    reveal(Model::answered);
}

/// A flawed ack never opens a session: the Ark drops the handshake and says so.
pub proof fn law_flawed_ack_is_dropped(model: Model, step: Step)
    requires
        flaw_of(step) is Some,
        model.partial is Boundary,
    ensures
        ({
            let after = model.executed(step);
            let front = if model.resync {
                model.emits.push(Emit::Recovery)
            } else {
                model.emits
            };
            &&& after.state == State::Idle
            &&& !after.session
            &&& !after.pending
            &&& !model.broken ==> after.emits == front.push(Emit::Dropped)
        }),
{
    reveal(Model::executed);
    reveal(Model::delivered);
}

/// Number of requests among the first steps of a script.
pub open spec fn requests(steps: Seq<Step>, count: int) -> nat
    decreases count,
{
    if count <= 0 {
        0
    } else {
        requests(steps, count - 1) + if steps[count - 1] is Request {
            1nat
        } else {
            0nat
        }
    }
}

/// A frame surfaces a message only if it is a request.
proof fn lemma_frame_surfaces(model: Model, kind: Kind)
    requires
        !(model.outcome is Message),
    ensures
        model.delivered(kind).outcome is Message ==> kind is Request,
{
    reveal(Model::delivered);
}

/// The Ark surfaces a message only for a request.
proof fn lemma_only_requests(model: Model, step: Step)
    requires
        !(model.outcome is Message),
    ensures
        model.executed(step).outcome is Message ==> step is Request,
        model.executed(step).delivered == model.delivered,
{
    reveal(Model::executed);
    lemma_step_weight(model, step);
    lemma_frame_surfaces(model, Kind::Junk);
    match step {
        Step::Reset => lemma_frame_surfaces(model, Kind::Empty),
        Step::ResetPair => {
            lemma_frame_surfaces(model, Kind::Empty);
            lemma_frame_surfaces(model.delivered(Kind::Empty), Kind::Empty);
        },
        Step::Hello => lemma_frame_surfaces(
            Model { hello: true, valid: true, ..model },
            Kind::Hello,
        ),
        Step::HelloReplay => lemma_frame_surfaces(model, Kind::Hello),
        Step::Ack => lemma_frame_surfaces(
            Model { pending: false, session: true, ack: true, valid: true, ..model },
            Kind::Ack,
        ),
        Step::Garbage => lemma_frame_surfaces(Model { valid: true, ..model }, Kind::Garbage),
        _ => {},
    }
}

/// The messages delivered are at most the requests made.
proof fn lemma_deliveries(steps: Seq<Step>, count: int)
    ensures
        ran(steps, count).delivered <= requests(steps, count),
        !(ran(steps, count).outcome is Message),
    decreases count,
{
    if count > 0 {
        lemma_deliveries(steps, count - 1);
        let before = ran(steps, count - 1);
        lemma_only_requests(before, steps[count - 1]);
        reveal(Model::answered);
        let answered = before.executed(steps[count - 1]).answered();
        lemma_seeing(answered, answered.emits, answered.emits.len() as int);
    }
}

/// Only requests among the first sixty-four steps of a script are delivered, each at most
/// once.
pub proof fn law_only_requests_are_delivered(summary: Summary, steps: Seq<Step>)
    requires
        summarizes(summary, steps),
    ensures
        summary.delivered <= requests(
            steps,
            if steps.len() < 64 {
                steps.len() as int
            } else {
                64
            },
        ),
        summary.state == State::Idle || summary.state == State::Established,
{
    lemma_deliveries(steps, run_length(steps));
}

/// The payload of a flawed ack is what its flaw says: two strings in place of one, a key of
/// another size, or else the encapsulated key.
pub proof fn law_flawed_payloads(flaw: AckFlaw, encap: Seq<u8>)
    ensures
        flaw == AckFlaw::Payload <==> ack_list(flaw, encap).len() != 1,
        flaw == AckFlaw::Encap ==> ack_list(flaw, encap)[0].len() != keys::ENCAP_KEY_SIZE,
        flaw != AckFlaw::Payload && flaw != AckFlaw::Encap ==> ack_list(flaw, encap)[0] == encap,
{
}

/// Number of frames of a kind among the expected ones.
pub open spec fn emits_of(emits: Seq<Emit>, counts: spec_fn(Emit) -> bool, count: int) -> nat
    decreases count,
{
    if count <= 0 {
        0
    } else {
        emits_of(emits, counts, count - 1) + if counts(emits[count - 1]) {
            1nat
        } else {
            0nat
        }
    }
}

/// Every frame that the Ark emits is counted under what it is, the delimiters that recover
/// from failed output under nothing.
pub proof fn law_emits_are_counted(model: Model, emits: Seq<Emit>, count: int)
    requires
        0 <= count <= emits.len(),
    ensures
        ({
            let seen = model.seeing_all(emits, count);
            &&& seen.dropped == model.dropped + emits_of(
                emits,
                |emit: Emit| emit == Emit::Dropped,
                count,
            )
            &&& seen.handshakes == model.handshakes + emits_of(
                emits,
                |emit: Emit| emit == Emit::ArkHello,
                count,
            )
            &&& seen.replies == model.replies + emits_of(
                emits,
                |emit: Emit| emit is Reply,
                count,
            )
            &&& seen.delivered == model.delivered
        }),
    decreases count,
{
    if count > 0 {
        law_emits_are_counted(model, emits, count - 1);
    }
}

} // verus!
