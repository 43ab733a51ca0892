//! Replay of recorded scenarios against a fresh client.

use darkbio_crypto::xdsa::PublicKey as VerifyingKey;
use vstd::prelude::*;
use vstd::slice::{slice_subrange, slice_to_vec};

use super::attestation::Attestation;
use super::checker;
use super::checker::{Mismatch, Peer};
use super::client;
use super::client::{Client, Phase, Progress};
use super::cobs;
use super::envelope;
use super::framing;
use super::framing::Arrival;
use super::handshake;
use super::handshake::{Answerer, HelloKeys};
use super::io::ErrorKind;
use super::keys;
use super::outbound;
use super::outbound::{Outbound, Side};
use super::sealing;
use super::sender::Sender;
use super::session::Session;
use super::tape;
use super::tape::{Event, Input, Output, ReadError, Tape, Writer, Written};
use super::Error;
use crate::bytes::{same_bytes, same_text};

verus! {

/// Signing time of the acks in transcripts, which keeps recorded output
/// independent of the clock.
pub const TIMESTAMP: i64 = 0;

/// Most bytes that the client reads at once.
pub const ROOM: usize = 64 * 1024;

/// How a replay diverges from its transcript.
#[derive(Clone, Copy, Debug, PartialEq, Eq, Structural)]
pub enum Divergence {
    /// A recorded key is none.
    Key,
    /// The transcript has something else than a call.
    Call,
    /// The client reads or writes where the transcript has something else.
    Order,
    /// The transcript ended before the client did.
    Ended,
    /// A call returned something else than recorded.
    Outcome,
    /// The server presented another attestation than recorded.
    Attestation,
    /// A session is established and none was recorded, or the other way around.
    Session,
    /// The client's output differs from the recorded one.
    Output(Mismatch),
}

/// Message of a send call, as a sequence.
pub open spec fn plain(request: Option<&Vec<u8>>) -> Option<Seq<u8>> {
    match request {
        Some(request) => Some(request@),
        None => None,
    }
}

/// Whether the result of a call is the recorded one.
pub open spec fn as_recorded(result: Result<Option<Vec<u8>>, Error>, event: Event) -> bool {
    match (result, event) {
        (Ok(reply), Event::Returned { reply: recorded }) => match (reply, recorded) {
            (Some(reply), Some(recorded)) => reply@ == recorded@,
            (None, None) => true,
            _ => false,
        },
        (Err(error), Event::Refused { kind }) => kind@ == error.name(),
        _ => false,
    }
}

/// Whether checking an output takes a peer to the next one, with this result.
pub open spec fn receives(
    before: Peer,
    after: Peer,
    written: Written,
    request: Option<Seq<u8>>,
    checked: Result<(), Mismatch>,
) -> bool {
    checker::checks(
        before,
        after,
        checker::receipt(before, written.recorded@, written.actual@, written.failed, request),
        checked,
    )
}

/// Whether the outputs of a call take a peer through these states, matching the
/// recording.
pub open spec fn receives_all(
    peers: Seq<Peer>,
    writes: Seq<Written>,
    request: Option<Seq<u8>>,
) -> bool {
    &&& peers.len() == writes.len() + 1
    &&& forall|i: int|
        0 <= i < writes.len() ==> receives(
            #[trigger] peers[i],
            peers[i + 1],
            writes[i],
            request,
            Ok(()),
        )
}

/// What settling a call does to the peer, and what comes out, given the recorded
/// result and the outputs of the call.
pub open spec fn settles(
    before: Peer,
    after: Peer,
    recorded: Option<Event>,
    writes: Seq<Written>,
    request: Option<Seq<u8>>,
    result: Result<Option<Vec<u8>>, Error>,
    settled: Result<(), Divergence>,
) -> bool {
    match recorded {
        None => settled == Err::<(), Divergence>(Divergence::Ended) && after == before,
        Some(event) => if as_recorded(result, event) {
            match settled {
                Ok(_) => exists|peers: Seq<Peer>|
                    {
                        &&& #[trigger] receives_all(peers, writes, request)
                        &&& peers[0] == before
                        &&& peers.last() == after
                    },
                Err(Divergence::Output(mismatch)) => exists|peers: Seq<Peer>, count: int|
                    {
                        &&& 0 <= count < writes.len()
                        &&& #[trigger] receives_all(peers, writes.take(count), request)
                        &&& peers[0] == before
                        &&& receives(peers.last(), after, writes[count], request, Err(mismatch))
                    },
                Err(_) => false,
            }
        } else {
            settled == Err::<(), Divergence>(Divergence::Outcome) && after == before
        },
    }
}

/// Whether the result of a call is the recorded one.
fn is_recorded(result: &Result<Option<Vec<u8>>, Error>, event: &Event) -> (same: bool)
    ensures
        same == as_recorded(*result, *event),
{
    match (result, event) {
        (Ok(reply), Event::Returned { reply: recorded }) => match (reply, recorded) {
            (Some(reply), Some(recorded)) => same_bytes(reply, recorded),
            (None, None) => true,
            _ => false,
        },
        (Err(error), Event::Refused { kind }) => same_text(kind.as_str(), error.kind()),
        _ => false,
    }
}

/// Checks one call's result and output against the transcript. `request` is the
/// message of a send call, if any.
pub fn settle(
    tape: &mut Tape,
    peer: &mut Peer,
    request: Option<&Vec<u8>>,
    result: Result<Option<Vec<u8>>, Error>,
) -> (settled: Result<(), Divergence>)
    ensures
        settles(
            *old(peer),
            *final(peer),
            if old(tape).remaining().len() > 0 {
                Some(old(tape).remaining()[0])
            } else {
                None
            },
            old(tape).writes(),
            plain(request),
            result,
            settled,
        ),
        old(tape).remaining().len() > 0 ==> final(tape).remaining() == old(
            tape,
        ).remaining().skip(1),
        old(tape).remaining().len() == 0 ==> final(tape).remaining() == old(tape).remaining(),
        final(tape).buffered() == old(tape).buffered(),
        final(tape).chunk() == old(tape).chunk(),
        final(tape).output_failed() == old(tape).output_failed(),
        final(tape).writes() == Seq::<Written>::empty(),
{
    let writes = tape.take_writes();
    let event = match tape.next() {
        Some(event) => event,
        None => return Err(Divergence::Ended),
    };
    if !is_recorded(&result, &event) {
        return Err(Divergence::Outcome);
    }
    let ghost mut peers: Seq<Peer> = seq![*peer];
    for i in 0..writes.len()
        invariant
            as_recorded(result, event),
            receives_all(peers, writes@.take(i as int), plain(request)),
            peers[0] == *old(peer),
            peers.last() == *peer,
            writes@ == old(tape).writes(),
            old(tape).remaining().len() > 0,
            old(tape).remaining()[0] == event,
            tape.remaining() == old(tape).remaining().skip(1),
            tape.buffered() == old(tape).buffered(),
            tape.chunk() == old(tape).chunk(),
            tape.output_failed() == old(tape).output_failed(),
            tape.writes() == Seq::<Written>::empty(),
    {
        let written = &writes[i];
        let ghost before = *peer;
        let checked = peer.check(&written.recorded, &written.actual, written.failed, request);
        assert(receives(before, *peer, writes@[i as int], plain(request), checked));
        if let Err(mismatch) = checked {
            assert(peers.len() - 1 == i);
            return Err(Divergence::Output(mismatch));
        }
        proof {
            let behind = peers;
            let taken = writes@.take(i + 1);
            peers = peers.push(*peer);
            assert forall|j: int| 0 <= j < taken.len() implies receives(
                #[trigger] peers[j],
                peers[j + 1],
                taken[j],
                plain(request),
                Ok(()),
            ) by {
                if j < i {
                    assert(receives(
                        behind[j],
                        behind[j + 1],
                        writes@.take(i as int)[j],
                        plain(request),
                        Ok(()),
                    ));
                }
            }
        }
    }
    assert(writes@.take(writes@.len() as int) =~= writes@);
    assert(receives_all(peers, writes@, plain(request)));
    Ok(())
}

/// Whether an event is I/O of a call in progress.
pub open spec fn is_io(event: Event) -> bool {
    event is Read || event is ReadFailed || tape::is_output(event)
}

/// Whether an event is a call with a result.
pub open spec fn is_call(event: Event) -> bool {
    event is Handshake || event is Send || event is SendRetained || event is Recv
}

/// Whether events are a transcript: calls, each followed by its I/O and its
/// result, with the handling of senders in between. Within a call, what is left
/// of it comes first.
pub open spec fn transcript(events: Seq<Event>, within: bool) -> bool
    decreases events.len(),
{
    if events.len() == 0 {
        !within
    } else if within {
        if is_io(events[0]) {
            transcript(events.skip(1), true)
        } else {
            (events[0] is Returned || events[0] is Refused) && transcript(events.skip(1), false)
        }
    } else if is_call(events[0]) {
        transcript(events.skip(1), true)
    } else {
        (events[0] is Retain || events[0] is Session) && transcript(events.skip(1), false)
    }
}

/// Keys of a recorded handshake.
pub open spec fn recorded_keys(xdsa: Seq<u8>, xhpke: Seq<u8>) -> HelloKeys {
    HelloKeys { signer: keys::xdsa_seeded(xdsa), crypto: keys::xhpke_seeded(xhpke) }
}

/// Whether events are a handshake whose reset does not go out.
pub open spec fn mute(events: Seq<Event>) -> bool {
    &&& events.len() >= 3
    &&& tape::output_of(events[1]) matches Some((bytes, failure))
    &&& bytes == seq![0u8, 0u8]
    &&& failure is Some
    &&& events[2] matches Event::Refused { kind }
    &&& kind@ == "SendFailed"@
}

/// Whether events are a handshake whose hello goes out, and whose input then ends before
/// any of it was read.
pub open spec fn deaf(events: Seq<Event>, hello: HelloKeys) -> bool {
    &&& events.len() >= 5
    &&& events[1] matches Event::Write { bytes: reset, failed: lost }
    &&& reset@ == seq![0u8, 0u8] && !lost
    &&& events[2] matches Event::Write { bytes, failed }
    &&& bytes@ == framing::framed(false, cobs::cobs_encoded(hello.pair())) && !failed
    &&& events[3] matches Event::ReadFailed { error }
    &&& events[4] matches Event::Refused { kind }
    &&& match error {
        ReadError::Eof => kind@ == "Terminated"@,
        ReadError::Failed => kind@ == "RecvFailed"@,
        _ => false,
    }
}

/// Whether events are refused calls of a client that never had a session. It has
/// nothing to send into and nothing to receive from, so those calls do no I/O. A
/// handshake ends by its reset not going out, or by the input ending behind its hello.
pub open spec fn sessionless(events: Seq<Event>) -> bool
    decreases events.len(),
{
    if events.len() == 0 {
        true
    } else {
        match events[0] {
            Event::Retain => sessionless(events.skip(1)),
            Event::Session { established } => !established && sessionless(events.skip(1)),
            Event::Send { .. } | Event::SendRetained { .. } | Event::Recv => {
                &&& events.len() >= 2
                &&& events[1] matches Event::Refused { kind }
                &&& kind@ == "EncryptionFailed"@
                &&& sessionless(events.skip(2))
            },
            Event::Handshake { xdsa, xhpke } => {
                &&& xdsa@.len() == keys::SIGNING_KEY_SIZE
                &&& xhpke@.len() == keys::DECRYPTION_KEY_SIZE
                &&& {
                    ||| mute(events) && sessionless(events.skip(3))
                    ||| deaf(events, recorded_keys(xdsa@, xhpke@)) && sessionless(events.skip(5))
                }
            },
            _ => false,
        }
    }
}

/// Whether events come to be played by I/O of a call in progress.
pub open spec fn progresses(before: Seq<Event>, after: Seq<Event>) -> bool {
    &&& after.len() <= before.len()
    &&& transcript(after, true) ==> transcript(before, true)
}

/// Input of no bytes is I/O of the call in progress.
proof fn lemma_past_empty(events: Seq<Event>)
    ensures
        progresses(events, tape::past_empty(events)),
    decreases events.len(),
{
    if events.len() > 0 && tape::is_empty_read(events[0]) {
        lemma_past_empty(events.skip(1));
    }
}

/// What a flush comes to, ahead of which all output was accepted.
pub open spec fn flushed(output: Output) -> Result<Result<(), ErrorKind>, Divergence> {
    match output {
        Output::Accepted(_) => Ok(Ok(())),
        Output::Failed(kind) => Ok(Err(kind)),
        Output::Diverged => Err(Divergence::Order),
    }
}

/// Output takes the place of the recorded one, piece by piece until all of it is
/// accepted and flushed or it fails. Where the transcript has something else it
/// diverges.
pub open spec fn puts(
    before: Tape,
    after: Tape,
    pending: Option<ErrorKind>,
    bytes: Seq<u8>,
    outcome: Result<Result<(), ErrorKind>, Divergence>,
) -> bool
    decreases bytes.len(),
{
    if bytes.len() == 0 {
        exists|output: Output| #[trigger]
            tape::flushes(before, after, pending, None, output) && outcome == flushed(output)
    } else {
        exists|next: Tape, left: Option<ErrorKind>, output: Output| #[trigger]
            tape::captures(before, next, pending, left, bytes, output) && match output {
                Output::Accepted(size) => {
                    &&& 0 < size <= bytes.len()
                    &&& puts(next, after, left, bytes.skip(size as int), outcome)
                },
                Output::Failed(kind) => {
                    &&& after == next
                    &&& outcome == Ok::<Result<(), ErrorKind>, Divergence>(Err(kind))
                },
                Output::Diverged => {
                    &&& after == next
                    &&& outcome == Err::<Result<(), ErrorKind>, Divergence>(Divergence::Order)
                },
            }
    }
}

/// Whatever the rest of an output comes to, all of it comes to.
spec fn resumes(
    start: Tape,
    whole: Seq<u8>,
    tape: Tape,
    pending: Option<ErrorKind>,
    rest: Seq<u8>,
) -> bool {
    forall|after: Tape, outcome: Result<Result<(), ErrorKind>, Divergence>| #[trigger]
        puts(tape, after, pending, rest, outcome) ==> puts(start, after, None, whole, outcome)
}

/// Another piece of an output is accepted.
proof fn lemma_resumes(
    start: Tape,
    whole: Seq<u8>,
    tape: Tape,
    pending: Option<ErrorKind>,
    rest: Seq<u8>,
    next: Tape,
    left: Option<ErrorKind>,
    size: usize,
)
    requires
        resumes(start, whole, tape, pending, rest),
        tape::captures(tape, next, pending, left, rest, Output::Accepted(size)),
        0 < size <= rest.len(),
    ensures
        resumes(start, whole, next, left, rest.skip(size as int)),
{
    assert forall|after: Tape, outcome: Result<Result<(), ErrorKind>, Divergence>| #[trigger]
        puts(next, after, left, rest.skip(size as int), outcome) implies puts(
        start,
        after,
        None,
        whole,
        outcome,
    ) by {
        assert(puts(tape, after, pending, rest, outcome));
    }
}

/// Writes output in place of the recorded one, until all of it is accepted and
/// flushed or it fails.
fn write_out(tape: &mut Tape, writer: &mut Writer, bytes: &Vec<u8>) -> (outcome: Result<
    Result<(), ErrorKind>,
    Divergence,
>)
    requires
        bytes@.len() > 0,
    ensures
        puts(*old(tape), *final(tape), None, bytes@, outcome),
        outcome is Ok ==> progresses(old(tape).remaining(), final(tape).remaining()),
        outcome is Ok ==> final(tape).remaining().len() < old(tape).remaining().len(),
        outcome matches Err(divergence) ==> divergence == Divergence::Order,
{
    writer.set_write_deadline();
    let mut offset: usize = 0;
    assert(bytes@.skip(0) =~= bytes@);
    while offset < bytes.len()
        invariant
            offset <= bytes@.len(),
            progresses(old(tape).remaining(), tape.remaining()),
            offset == 0 ==> writer.pending_error is None,
            offset > 0 ==> tape.remaining().len() < old(tape).remaining().len(),
            resumes(
                *old(tape),
                bytes@,
                *tape,
                writer.pending_error,
                bytes@.skip(offset as int),
            ),
        decreases bytes@.len() - offset,
    {
        let ghost before = *tape;
        let ghost pending = writer.pending_error;
        let ghost rest = bytes@.skip(offset as int);
        assert(bytes@.subrange(offset as int, bytes@.len() as int) =~= rest);
        let output = writer.write(tape, slice_subrange(bytes.as_slice(), offset, bytes.len()));
        match output {
            Output::Accepted(size) => {
                assert(tape.remaining() == before.remaining().skip(1));
                proof {
                    lemma_resumes(
                        *old(tape),
                        bytes@,
                        before,
                        pending,
                        rest,
                        *tape,
                        writer.pending_error,
                        size,
                    );
                    assert(rest.skip(size as int) =~= bytes@.skip(offset + size));
                }
                offset = offset + size;
            },
            Output::Failed(kind) => {
                assert(puts(before, *tape, pending, rest, Ok(Err(kind))));
                return Ok(Err(kind));
            },
            Output::Diverged => {
                assert(puts(before, *tape, pending, rest, Err(Divergence::Order)));
                return Err(Divergence::Order);
            },
        }
    }
    let ghost before = *tape;
    let ghost pending = writer.pending_error;
    let output = writer.flush(tape);
    assert(puts(
        before,
        *tape,
        pending,
        bytes@.skip(offset as int),
        flushed(output),
    ));
    match output {
        Output::Accepted(_) => Ok(Ok(())),
        Output::Failed(kind) => Ok(Err(kind)),
        Output::Diverged => Err(Divergence::Order),
    }
}

/// What reading for the client comes to.
enum Fed {
    Taken,  // The client was fed, or the read is to be retried
    Ended,  // The stream ended
    Failed(ErrorKind),  // The read failed
}

/// A read gets recorded input. One that is cut short or expires gets none, and is
/// retried.
pub open spec fn brings(before: Tape, after: Tape, bytes: Seq<u8>) -> bool {
    exists|input: Option<Input>| #[trigger]
        tape::reads(before, after, ROOM as nat, input) && match input {
            Some(Input::Bytes(read)) => read@.len() > 0 && bytes == read@,
            Some(Input::Failed(kind)) => {
                &&& kind == ErrorKind::Interrupted || kind == ErrorKind::TimedOut
                &&& bytes == Seq::<u8>::empty()
            },
            _ => false,
        }
}

/// A read finds the stream at its end, or fails for good.
pub open spec fn breaks(before: Tape, after: Tape, error: Error) -> bool {
    exists|input: Option<Input>| #[trigger]
        tape::reads(before, after, ROOM as nat, input) && match input {
            Some(Input::Bytes(read)) => read@.len() == 0 && error == Error::Terminated,
            Some(Input::Failed(kind)) => {
                &&& kind != ErrorKind::Interrupted && kind != ErrorKind::TimedOut
                &&& error == Error::RecvFailed(kind)
            },
            _ => false,
        }
}

/// A read comes where the transcript has something else.
pub open spec fn strays(before: Tape, after: Tape) -> bool {
    exists|input: Option<Input>| #[trigger]
        tape::reads(before, after, ROOM as nat, input) && match input {
            Some(Input::Bytes(_)) | Some(Input::Failed(_)) => false,
            _ => true,
        }
}

/// Reads recorded input for the client.
fn feed(tape: &mut Tape, client: &mut Client) -> (fed: Result<Fed, Divergence>)
    ensures
        fed is Ok ==> progresses(old(tape).remaining(), final(tape).remaining()),
        fed == Ok::<Fed, Divergence>(Fed::Taken) ==> {
            ||| final(tape).remaining().len() < old(tape).remaining().len()
            ||| final(tape).remaining() == old(tape).remaining() && final(tape).buffered().len()
                < old(tape).buffered().len()
        },
        match fed {
            Ok(Fed::Taken) => exists|bytes: Seq<u8>|
                {
                    &&& #[trigger] brings(*old(tape), *final(tape), bytes)
                    &&& final(client).input() == framing::extended(old(client).input(), bytes)
                },
            Ok(Fed::Ended) => {
                &&& breaks(*old(tape), *final(tape), Error::Terminated)
                &&& *final(client) == *old(client)
            },
            Ok(Fed::Failed(kind)) => {
                &&& breaks(*old(tape), *final(tape), Error::RecvFailed(kind))
                &&& *final(client) == *old(client)
            },
            Err(divergence) => {
                &&& divergence == Divergence::Order
                &&& strays(*old(tape), *final(tape))
                &&& *final(client) == *old(client)
            },
        },
        final(client).receiver() == old(client).receiver(),
        final(client).session() == old(client).session(),
        final(client).phase() == old(client).phase(),
        final(client).timeout() == old(client).timeout(),
{
    proof {
        lemma_past_empty(tape.remaining());
        framing::lemma_extends(client.input(), Seq::empty(), Seq::empty());
    }
    let input = tape.read(ROOM);
    assert(tape::reads(*old(tape), *tape, ROOM as nat, input));
    match input {
        Some(Input::Bytes(bytes)) => {
            if bytes.len() == 0 {
                return Ok(Fed::Ended);
            }
            client.feed(bytes.as_slice());
            assert(brings(*old(tape), *tape, bytes@));
            Ok(Fed::Taken)
        },
        Some(Input::Failed(kind)) => {
            if kind == ErrorKind::Interrupted || kind == ErrorKind::TimedOut {
                assert(brings(*old(tape), *tape, Seq::empty()));
                Ok(Fed::Taken)
            } else {
                Ok(Fed::Failed(kind))
            }
        },
        _ => Err(Divergence::Order),
    }
}

/// Whether the client's output is settled between two steps of a call.
spec fn settled(client: Client, out: Outbound) -> bool {
    &&& out.output() == outbound::Output::Settled
    &&& out.side() == Side::Client
    &&& !(client.phase() is Acked)
}

/// Packet among the frames of an input that is sealed to the keys of a hello, the first
/// one if there is any. All other frames are skipped.
pub open spec fn answer_in(hello: HelloKeys, input: framing::Input) -> Option<Seq<u8>>
    decreases input.pending.len(),
{
    let rest = framing::after_item(input);
    match framing::next_item(input) {
        None => None,
        Some(item) => match framing::arrival(item) {
            Arrival::Packet(packet) if hello.addressed(packet) => Some(packet),
            _ => if rest.pending.len() < input.pending.len() {
                answer_in(hello, rest)
            } else {
                None
            },
        },
    }
}

/// Whether the answer to a hello is found in everything read exactly where a client
/// finds it in the input that it has left, whatever arrives behind them.
#[verifier::opaque]
spec fn on_course(hello: HelloKeys, total: framing::Input, input: framing::Input) -> bool {
    forall|more: Seq<u8>|
        {
            let front = #[trigger] framing::extended(total, more);
            let back = framing::extended(input, more);
            &&& answer_in(hello, front) == answer_in(hello, back)
            &&& framing::drained(front) == framing::drained(back)
        }
}

/// A client on course finds what everything read comes to.
proof fn lemma_answer_now(hello: HelloKeys, total: framing::Input, input: framing::Input)
    requires
        on_course(hello, total, input),
    ensures
        answer_in(hello, total) == answer_in(hello, input),
        framing::drained(total) == framing::drained(input),
{
    reveal(on_course);
    framing::lemma_extends(total, Seq::empty(), Seq::empty());
    framing::lemma_extends(input, Seq::empty(), Seq::empty());
    assert(answer_in(hello, framing::extended(total, Seq::empty())) == answer_in(
        hello,
        framing::extended(input, Seq::empty()),
    ));
}

/// A client that skips a frame stays on course.
proof fn lemma_skip_on_course(hello: HelloKeys, total: framing::Input, input: framing::Input)
    requires
        on_course(hello, total, input),
        framing::next_item(input) matches Some(item) && (framing::arrival(
            item,
        ) matches Arrival::Packet(packet) ==> !hello.addressed(packet)),
    ensures
        on_course(hello, total, framing::after_item(input)),
{
    reveal(on_course);
    let rest = framing::after_item(input);
    assert forall|more: Seq<u8>|
        {
            let front = #[trigger] framing::extended(total, more);
            let back = framing::extended(rest, more);
            &&& answer_in(hello, front) == answer_in(hello, back)
            &&& framing::drained(front) == framing::drained(back)
        } by {
        let longer = framing::extended(input, more);
        framing::lemma_item_stays(input, more);
        framing::lemma_item_consumes(longer);
        assert(answer_in(hello, longer) == answer_in(hello, framing::extended(rest, more)));
    }
}

/// A client that has looked for a frame in vain stays on course.
proof fn lemma_feed_on_course(
    hello: HelloKeys,
    start: framing::Input,
    chunks: Seq<Seq<u8>>,
    input: framing::Input,
    bytes: Seq<u8>,
)
    requires
        on_course(hello, framing::extended(start, framing::joined(chunks)), input),
        framing::next_item(input) is None,
    ensures
        on_course(
            hello,
            framing::extended(start, framing::joined(chunks.push(bytes))),
            framing::extended(framing::after_item(input), bytes),
        ),
{
    reveal(on_course);
    let before = framing::extended(start, framing::joined(chunks));
    let after = framing::extended(start, framing::joined(chunks.push(bytes)));
    let rest = framing::after_item(input);
    framing::lemma_joined(chunks, bytes);
    framing::lemma_extends(start, framing::joined(chunks), bytes);
    assert forall|more: Seq<u8>|
        {
            let front = #[trigger] framing::extended(after, more);
            let back = framing::extended(framing::extended(rest, bytes), more);
            &&& answer_in(hello, front) == answer_in(hello, back)
            &&& framing::drained(front) == framing::drained(back)
        } by {
        let left = framing::extended(rest, bytes + more);
        let right = framing::extended(input, bytes + more);
        framing::lemma_extends(before, bytes, more);
        framing::lemma_extends(rest, bytes, more);
        framing::lemma_rest_continues(input, bytes + more);
        framing::lemma_item_consumes(left);
        framing::lemma_item_consumes(right);
        framing::lemma_items_agree(left, right);
        assert(answer_in(hello, left) == answer_in(hello, right));
        assert(answer_in(hello, framing::extended(before, bytes + more)) == answer_in(
            hello,
            right,
        ));
    }
}

/// The tape after each of a number of reads, which bring the bytes given. The answer to
/// the hello was not found before any of them.
#[verifier::opaque]
spec fn awaits(
    hello: HelloKeys,
    input: framing::Input,
    tape: Tape,
    chunks: Seq<Seq<u8>>,
    tapes: Seq<Tape>,
) -> bool {
    &&& tapes.len() == chunks.len() + 1
    &&& tapes[0] == tape
    &&& forall|j: int|
        0 <= j < chunks.len() ==> brings(#[trigger] tapes[j], tapes[j + 1], chunks[j])
    &&& forall|i: int|
        0 <= i < chunks.len() ==> answer_in(
            hello,
            framing::extended(input, framing::joined(#[trigger] chunks.take(i))),
        ) is None
}

/// Another read brings bytes.
proof fn lemma_awaits_more(
    hello: HelloKeys,
    input: framing::Input,
    tape: Tape,
    chunks: Seq<Seq<u8>>,
    tapes: Seq<Tape>,
    bytes: Seq<u8>,
    next: Tape,
)
    requires
        awaits(hello, input, tape, chunks, tapes),
        brings(tapes.last(), next, bytes),
        answer_in(hello, framing::extended(input, framing::joined(chunks))) is None,
    ensures
        awaits(hello, input, tape, chunks.push(bytes), tapes.push(next)),
{
    reveal(awaits);
    let longer = tapes.push(next);
    let read = chunks.push(bytes);
    framing::lemma_joined(chunks, bytes);
    assert forall|j: int| 0 <= j < read.len() implies brings(
        #[trigger] longer[j],
        longer[j + 1],
        read[j],
    ) by {
        if j < chunks.len() {
            assert(brings(tapes[j], tapes[j + 1], chunks[j]));
        }
    }
}

/// Client and output after a handshake that did not come to a session.
spec fn refused(client: Client, out: Outbound, sent: Outbound) -> bool {
    &&& client.phase() == Phase::Idle
    &&& client.receiver() is None
    &&& out.context() is None
    &&& out.sessions() == sent.sessions()
}

/// Client and output after a handshake that came to a session.
spec fn established(client: Client, out: Outbound, sent: Outbound, session: Session) -> bool {
    &&& client.phase() == Phase::Idle
    &&& client.receiver() == Some(session.receiver)
    &&& client.session() == out.bound()
    &&& out.context() == Some(session.sender)
    &&& out.sessions() == sent.sessions() + 1
}

/// What a handshake comes to if one of its outputs does not go out.
spec fn unsent(
    outcome: Result<Result<(), ErrorKind>, Divergence>,
    client: Client,
    out: Outbound,
    sent: Outbound,
    result: Result<Result<Attestation, Error>, Divergence>,
) -> bool {
    match outcome {
        Ok(Ok(_)) => false,
        Ok(Err(kind)) => {
            &&& result == Ok::<Result<Attestation, Error>, Divergence>(
                Err(Error::SendFailed(kind)),
            )
            &&& refused(client, out, sent)
        },
        Err(divergence) => {
            result == Err::<Result<Attestation, Error>, Divergence>(divergence)
        },
    }
}

/// What the conclusion of a handshake comes to. The ack goes out as one frame, and the
/// session starts with what the server presented.
spec fn acks(
    concluded: Result<(Session, Vec<u8>, Attestation), Error>,
    before: Tape,
    tape: Tape,
    client: Client,
    out: Outbound,
    sent: Outbound,
    result: Result<Result<Attestation, Error>, Divergence>,
) -> bool {
    match concluded {
        Ok((session, ack, attestation)) => {
            exists|outcome: Result<Result<(), ErrorKind>, Divergence>| #[trigger]
                puts(
                    before,
                    tape,
                    None,
                    framing::framed(false, cobs::cobs_encoded(ack@)),
                    outcome,
                ) && if outcome is Ok && outcome->Ok_0 is Ok {
                    &&& result == Ok::<Result<Attestation, Error>, Divergence>(Ok(attestation))
                    &&& established(client, out, sent, session)
                } else {
                    unsent(outcome, client, out, sent, result)
                }
        },
        Err(error) => {
            &&& result == Ok::<Result<Attestation, Error>, Divergence>(Err(error))
            &&& refused(client, out, sent)
            &&& tape == before
        },
    }
}

/// What a handshake comes to with everything read. Without the answer to the hello the
/// next read ended it.
spec fn decides(
    identity: &VerifyingKey,
    hello: HelloKeys,
    total: framing::Input,
    before: Tape,
    tape: Tape,
    client: Client,
    out: Outbound,
    sent: Outbound,
    result: Result<Result<Attestation, Error>, Divergence>,
) -> bool {
    match answer_in(hello, total) {
        None => match result {
            Ok(Ok(_)) => false,
            Ok(Err(error)) => {
                &&& breaks(before, tape, error)
                &&& refused(client, out, sent)
                &&& client.input() == framing::drained(total)
            },
            Err(divergence) => strays(before, tape) && divergence == Divergence::Order,
        },
        Some(packet) => exists|concluded: Result<(Session, Vec<u8>, Attestation), Error>|
            {
                &&& handshake::concludes(
                    identity,
                    packet,
                    hello,
                    Some(TIMESTAMP),
                    Answerer::Server,
                    concluded,
                )
                &&& #[trigger] acks(concluded, before, tape, client, out, sent, result)
            },
    }
}

/// Two delimiters, which end whatever was cut off and signal a fresh session.
spec fn reset_signal() -> Seq<u8> {
    seq![0u8, 0u8]
}

/// Frame of a hello.
spec fn announcement(hello: HelloKeys) -> Seq<u8> {
    framing::framed(false, cobs::cobs_encoded(hello.pair()))
}

/// The frame of a hello reads back as its keys.
spec fn legible(hello: HelloKeys) -> bool {
    &&& cobs::carries(cobs::cobs_encoded(hello.pair()), hello.pair())
    &&& handshake::hello_keys(hello.pair()) == Some(hello.public())
}

/// Output goes out, all of it in place of the recorded one.
spec fn goes_out(before: Tape, after: Tape, bytes: Seq<u8>) -> bool {
    exists|outcome: Result<Result<(), ErrorKind>, Divergence>| #[trigger]
        puts(before, after, None, bytes, outcome) && outcome is Ok && outcome->Ok_0 is Ok
}

/// A handshake under recorded keys: the reset goes out, the hello follows, and input is
/// read as long as the answer is not found in it.
spec fn shakes(
    before: Tape,
    tape: Tape,
    input: framing::Input,
    client: Client,
    sent: Outbound,
    out: Outbound,
    identity: &VerifyingKey,
    hello: HelloKeys,
    result: Result<Result<Attestation, Error>, Divergence>,
) -> bool {
    ||| client.input() == input && exists|
        outcome: Result<Result<(), ErrorKind>, Divergence>,
    | #[trigger]
        puts(before, tape, None, reset_signal(), outcome) && unsent(
            outcome,
            client,
            out,
            sent,
            result,
        )
    ||| legible(hello) && exists|
        reset: Tape,
        outcome: Result<Result<(), ErrorKind>, Divergence>,
    |
        {
            &&& #[trigger] goes_out(before, reset, reset_signal())
            &&& #[trigger] puts(reset, tape, None, announcement(hello), outcome)
            &&& unsent(outcome, client, out, sent, result)
            &&& client.input() == input
        }
    ||| legible(hello) && exists|reset: Tape, announced: Tape, chunks: Seq<Seq<u8>>, tapes: Seq<Tape>|
        {
            &&& #[trigger] goes_out(before, reset, reset_signal())
            &&& goes_out(reset, announced, announcement(hello))
            &&& #[trigger] awaits(hello, input, announced, chunks, tapes)
            &&& decides(
                identity,
                hello,
                framing::extended(input, framing::joined(chunks)),
                tapes.last(),
                tape,
                client,
                out,
                sent,
                result,
            )
        }
}

/// Conclusion that a client drew from the answer to its hello.
spec fn concluding(
    identity: &VerifyingKey,
    hello: HelloKeys,
    deadline: u64,
    packet: Seq<u8>,
    sent: Outbound,
    out: Outbound,
    progress: Progress<Attestation>,
    phase: Phase,
) -> Result<(Session, Vec<u8>, Attestation), Error> {
    choose|concluded: Result<(Session, Vec<u8>, Attestation), Error>|
        {
            &&& handshake::concludes(
                identity,
                packet,
                hello,
                Some(TIMESTAMP),
                Answerer::Server,
                concluded,
            )
            &&& #[trigger] client::finishes(concluded, deadline, sent, out, progress, phase)
        }
}

/// Replays a handshake under recorded keys, against a pinned identity.
fn shake(
    tape: &mut Tape,
    writer: &mut Writer,
    client: &mut Client,
    out: &mut Outbound,
    identity: &VerifyingKey,
    hello: HelloKeys,
) -> (result: Result<Result<Attestation, Error>, Divergence>)
    requires
        settled(*old(client), *old(out)),
        old(client).timeout() == super::server::DEFAULT_HANDSHAKE_TIMEOUT,
        old(out).sessions() < u64::MAX,
    ensures
        match result {
            Ok(_) => {
                &&& progresses(old(tape).remaining(), final(tape).remaining())
                &&& settled(*final(client), *final(out))
                &&& final(client).timeout() == old(client).timeout()
                &&& final(out).sessions() <= old(out).sessions() + 1
            },
            Err(divergence) => divergence == Divergence::Order,
        },
        shakes(
            *old(tape),
            *final(tape),
            old(client).input(),
            *final(client),
            *old(out),
            *final(out),
            identity,
            hello,
            result,
        ),
{
    let ghost start = client.input();
    let ghost keys = hello;
    // The reset and the hello go out first
    let bytes = match client.handshake_with_keys(out, identity, hello, TIMESTAMP, 0) {
        Progress::Write(bytes, _) => bytes,
        _ => return Err(Divergence::Order),
    };
    assert(bytes@ =~= reset_signal());
    let outcome = write_out(tape, writer, &bytes);
    assert(puts(*old(tape), *tape, None, reset_signal(), outcome));
    match outcome {
        Ok(outcome) => if let Err(error) = client.sent(out, outcome) {
            return Ok(Err(error));
        },
        Err(divergence) => return Err(divergence),
    }
    let ghost reset = *tape;
    assert(goes_out(*old(tape), reset, reset_signal()));
    let bytes = match client.handshake(out, identity, 0) {
        Progress::Write(bytes, _) => bytes,
        _ => return Err(Divergence::Order),
    };
    let outcome = write_out(tape, writer, &bytes);
    assert(puts(reset, *tape, None, announcement(keys), outcome));
    match outcome {
        Ok(outcome) => if let Err(error) = client.sent(out, outcome) {
            return Ok(Err(error));
        },
        Err(divergence) => return Err(divergence),
    }
    let ghost announced = *tape;
    assert(goes_out(reset, announced, announcement(keys)));
    let ghost deadline = super::server::DEFAULT_HANDSHAKE_TIMEOUT;
    let ghost mut chunks: Seq<Seq<u8>> = Seq::empty();
    let ghost mut tapes: Seq<Tape> = seq![*tape];
    proof {
        framing::lemma_extends(start, Seq::empty(), Seq::empty());
        reveal(on_course);
        reveal(awaits);
    }
    loop
        invariant
            settled(*client, *out),
            client.phase() == Phase::AwaitHello(keys, Some(TIMESTAMP), deadline),
            deadline == super::server::DEFAULT_HANDSHAKE_TIMEOUT,
            keys == hello,
            client.receiver() is None,
            client.timeout() == old(client).timeout(),
            client.timeout() == super::server::DEFAULT_HANDSHAKE_TIMEOUT,
            out.sessions() == old(out).sessions(),
            out.context() is None,
            !out.resync(),
            old(out).sessions() < u64::MAX,
            progresses(old(tape).remaining(), tape.remaining()),
            start == old(client).input(),
            goes_out(*old(tape), reset, reset_signal()),
            goes_out(reset, announced, announcement(keys)),
            legible(keys),
            awaits(keys, start, announced, chunks, tapes),
            tapes.last() == *tape,
            on_course(
                keys,
                framing::extended(start, framing::joined(chunks)),
                client.input(),
            ),
        decreases tape.remaining().len(), tape.buffered().len(), client.input().pending.len(),
    {
        let ghost total = framing::extended(start, framing::joined(chunks));
        let ghost input = client.input();
        let ghost before = *tape;
        let ghost sent = *out;
        proof {
            framing::lemma_item_consumes(input);
            lemma_answer_now(keys, total, input);
        }
        match client.handshake(out, identity, 0) {
            Progress::Again => {
                proof {
                    lemma_skip_on_course(keys, total, input);
                }
            },
            Progress::Read(_) => match feed(tape, client) {
                Ok(Fed::Taken) => {
                    proof {
                        let rest = framing::after_item(input);
                        let bytes = choose|bytes: Seq<u8>|
                            {
                                &&& #[trigger] brings(before, *tape, bytes)
                                &&& client.input() == framing::extended(rest, bytes)
                            };
                        lemma_awaits_more(
                            keys,
                            start,
                            announced,
                            chunks,
                            tapes,
                            bytes,
                            *tape,
                        );
                        lemma_feed_on_course(keys, start, chunks, input, bytes);
                        chunks = chunks.push(bytes);
                        tapes = tapes.push(*tape);
                    }
                },
                Ok(Fed::Ended) => {
                    client.interrupt(out);
                    return Ok(Err(Error::Terminated));
                },
                Ok(Fed::Failed(kind)) => {
                    client.interrupt(out);
                    return Ok(Err(Error::RecvFailed(kind)));
                },
                Err(divergence) => return Err(divergence),
            },
            Progress::Ack(bytes, limit, attestation) => {
                let ghost packet = answer_in(keys, total)->0;
                let ghost concluded = concluding(
                    identity,
                    keys,
                    deadline,
                    packet,
                    sent,
                    *out,
                    Progress::Ack(bytes, limit, attestation),
                    client.phase(),
                );
                let result: Result<Result<Attestation, Error>, Divergence> = match write_out(
                    tape,
                    writer,
                    &bytes,
                ) {
                    Ok(outcome) => match client.sent(out, outcome) {
                        Ok(_) => Ok(Ok(attestation)),
                        Err(error) => Ok(Err(error)),
                    },
                    Err(divergence) => Err(divergence),
                };
                assert(acks(concluded, before, *tape, *client, *out, *old(out), result));
                return result;
            },
            Progress::Failed(error) => {
                proof {
                    let packet = answer_in(keys, total)->0;
                    let concluded = concluding(
                        identity,
                        keys,
                        deadline,
                        packet,
                        sent,
                        *out,
                        Progress::Failed(error),
                        client.phase(),
                    );
                    handshake::lemma_conclusion_fits(
                        identity,
                        packet,
                        keys,
                        Some(TIMESTAMP),
                        Answerer::Server,
                        concluded,
                    );
                    assert(acks(
                        concluded,
                        before,
                        *tape,
                        *client,
                        *out,
                        *old(out),
                        Ok(Err(error)),
                    ));
                }
                return Ok(Err(error));
            },
            Progress::Write(_, _) => return Err(Divergence::Order),
        }
    }
}

/// Whether the same item comes first in two inputs, the same input behind it, whatever
/// arrives behind them.
#[verifier::opaque]
spec fn in_line(left: framing::Input, right: framing::Input) -> bool {
    forall|more: Seq<u8>|
        {
            let front = #[trigger] framing::extended(left, more);
            let back = framing::extended(right, more);
            &&& framing::next_item(front) == framing::next_item(back)
            &&& framing::after_item(front) == framing::after_item(back)
        }
}

/// Inputs in line start with the same item.
proof fn lemma_same_item(left: framing::Input, right: framing::Input)
    requires
        in_line(left, right),
    ensures
        framing::next_item(left) == framing::next_item(right),
        framing::after_item(left) == framing::after_item(right),
{
    reveal(in_line);
    framing::lemma_extends(left, Seq::empty(), Seq::empty());
    framing::lemma_extends(right, Seq::empty(), Seq::empty());
    assert(framing::extended(left, Seq::empty()) == left);
}

/// A client that has looked for a frame in vain stays in line with what was read.
proof fn lemma_feed_in_line(
    start: framing::Input,
    chunks: Seq<Seq<u8>>,
    input: framing::Input,
    bytes: Seq<u8>,
)
    requires
        in_line(framing::extended(start, framing::joined(chunks)), input),
        framing::next_item(input) is None,
    ensures
        in_line(
            framing::extended(start, framing::joined(chunks.push(bytes))),
            framing::extended(framing::after_item(input), bytes),
        ),
{
    reveal(in_line);
    let before = framing::extended(start, framing::joined(chunks));
    let after = framing::extended(start, framing::joined(chunks.push(bytes)));
    let rest = framing::after_item(input);
    framing::lemma_joined(chunks, bytes);
    framing::lemma_extends(start, framing::joined(chunks), bytes);
    assert forall|more: Seq<u8>|
        {
            let front = #[trigger] framing::extended(after, more);
            let back = framing::extended(framing::extended(rest, bytes), more);
            &&& framing::next_item(front) == framing::next_item(back)
            &&& framing::after_item(front) == framing::after_item(back)
        } by {
        framing::lemma_extends(before, bytes, more);
        framing::lemma_extends(rest, bytes, more);
        framing::lemma_rest_continues(input, bytes + more);
        let front = framing::extended(before, bytes + more);
        let back = framing::extended(input, bytes + more);
        assert(framing::next_item(front) == framing::next_item(back));
    }
}

/// The tape after each of a number of reads, which bring the bytes given. No frame was
/// complete before any of them.
#[verifier::opaque]
spec fn lacks(
    input: framing::Input,
    tape: Tape,
    chunks: Seq<Seq<u8>>,
    tapes: Seq<Tape>,
) -> bool {
    &&& tapes.len() == chunks.len() + 1
    &&& tapes[0] == tape
    &&& forall|j: int|
        0 <= j < chunks.len() ==> brings(#[trigger] tapes[j], tapes[j + 1], chunks[j])
    &&& forall|i: int|
        0 <= i < chunks.len() ==> framing::next_item(
            framing::extended(input, framing::joined(#[trigger] chunks.take(i))),
        ) is None
}

/// Another read brings bytes.
proof fn lemma_lacks_more(
    input: framing::Input,
    tape: Tape,
    chunks: Seq<Seq<u8>>,
    tapes: Seq<Tape>,
    bytes: Seq<u8>,
    next: Tape,
)
    requires
        lacks(input, tape, chunks, tapes),
        brings(tapes.last(), next, bytes),
        framing::next_item(framing::extended(input, framing::joined(chunks))) is None,
    ensures
        lacks(input, tape, chunks.push(bytes), tapes.push(next)),
{
    reveal(lacks);
    let longer = tapes.push(next);
    let read = chunks.push(bytes);
    framing::lemma_joined(chunks, bytes);
    assert forall|j: int| 0 <= j < read.len() implies brings(
        #[trigger] longer[j],
        longer[j + 1],
        read[j],
    ) by {
        if j < chunks.len() {
            assert(brings(tapes[j], tapes[j + 1], chunks[j]));
        }
    }
}

/// What a receipt comes to with everything read: what the first frame makes of it, or
/// the end of the next read.
spec fn hears(
    total: framing::Input,
    before: Tape,
    tape: Tape,
    client: Client,
    after: Client,
    sent: Outbound,
    out: Outbound,
    result: Result<Result<Vec<u8>, Error>, Divergence>,
) -> bool {
    match framing::next_item(total) {
        None => match result {
            Ok(Ok(_)) => false,
            Ok(Err(error)) => {
                &&& breaks(before, tape, error)
                &&& after.receiver() is None
                &&& out.context() == (if sent.bound_is(client.session()) {
                    None
                } else {
                    sent.context()
                })
            },
            Err(divergence) => strays(before, tape) && divergence == Divergence::Order,
        },
        Some(item) => {
            &&& tape == before
            &&& result matches Ok(message)
            &&& client::receives(client, after, sent, out, framing::arrival(item), message)
        },
    }
}

/// The receipt of a message. Without a session it fails before reading. Otherwise input
/// is read as long as no frame is complete.
spec fn listens(
    before: Tape,
    tape: Tape,
    client: Client,
    after: Client,
    sent: Outbound,
    out: Outbound,
    result: Result<Result<Vec<u8>, Error>, Divergence>,
) -> bool {
    if client.receiver() is None {
        &&& result matches Ok(Err(error))
        &&& client::no_session(error)
        &&& tape == before
        &&& after.receiver() is None
        &&& after.input() == client.input()
        &&& out == sent
    } else {
        exists|chunks: Seq<Seq<u8>>, tapes: Seq<Tape>|
            {
                &&& #[trigger] lacks(client.input(), before, chunks, tapes)
                &&& hears(
                    framing::extended(client.input(), framing::joined(chunks)),
                    tapes.last(),
                    tape,
                    client,
                    after,
                    sent,
                    out,
                    result,
                )
            }
    }
}

/// Replays the receipt of a message.
fn receive(tape: &mut Tape, client: &mut Client, out: &mut Outbound) -> (result: Result<
    Result<Vec<u8>, Error>,
    Divergence,
>)
    requires
        settled(*old(client), *old(out)),
    ensures
        match result {
            Ok(_) => {
                &&& progresses(old(tape).remaining(), final(tape).remaining())
                &&& settled(*final(client), *final(out))
                &&& final(client).timeout() == old(client).timeout()
                &&& final(out).sessions() == old(out).sessions()
            },
            Err(divergence) => divergence == Divergence::Order,
        },
        listens(
            *old(tape),
            *final(tape),
            *old(client),
            *final(client),
            *old(out),
            *final(out),
            result,
        ),
{
    let ghost start = client.input();
    let ghost mut chunks: Seq<Seq<u8>> = Seq::empty();
    let ghost mut tapes: Seq<Tape> = seq![*tape];
    proof {
        framing::lemma_extends(start, Seq::empty(), Seq::empty());
        reveal(in_line);
        reveal(lacks);
    }
    loop
        invariant
            old(client).receiver() is None ==> *client == *old(client) && *tape == *old(tape)
                && *out == *old(out),
            settled(*client, *out),
            progresses(old(tape).remaining(), tape.remaining()),
            client.timeout() == old(client).timeout(),
            client.receiver() == old(client).receiver(),
            client.session() == old(client).session(),
            *out == *old(out),
            start == old(client).input(),
            lacks(start, *old(tape), chunks, tapes),
            tapes.last() == *tape,
            in_line(framing::extended(start, framing::joined(chunks)), client.input()),
        decreases tape.remaining().len(), tape.buffered().len(),
    {
        let ghost total = framing::extended(start, framing::joined(chunks));
        let ghost input = client.input();
        let ghost before = *tape;
        proof {
            lemma_same_item(total, input);
        }
        if let Some(result) = client.recv(out) {
            return Ok(result);
        }
        match feed(tape, client) {
            Ok(Fed::Taken) => {
                proof {
                    let rest = framing::after_item(input);
                    let bytes = choose|bytes: Seq<u8>|
                        {
                            &&& #[trigger] brings(before, *tape, bytes)
                            &&& client.input() == framing::extended(rest, bytes)
                        };
                    lemma_lacks_more(start, *old(tape), chunks, tapes, bytes, *tape);
                    lemma_feed_in_line(start, chunks, input, bytes);
                    chunks = chunks.push(bytes);
                    tapes = tapes.push(*tape);
                }
            },
            Ok(Fed::Ended) => {
                client.interrupt(out);
                return Ok(Err(Error::Terminated));
            },
            Ok(Fed::Failed(kind)) => {
                client.interrupt(out);
                return Ok(Err(Error::RecvFailed(kind)));
            },
            Err(divergence) => return Err(divergence),
        }
    }
}

/// The send of a message through a sender. Without one it fails. A refused one puts
/// nothing out. Otherwise its frame takes the place of the recorded output.
spec fn sends(
    before: Tape,
    tape: Tape,
    sent: Outbound,
    out: Outbound,
    sender: Option<Sender>,
    message: Seq<u8>,
    result: Result<Result<Option<Vec<u8>>, Error>, Divergence>,
) -> bool {
    match sender {
        None => {
            &&& result matches Ok(Err(error))
            &&& client::no_session(error)
            &&& tape == before
            &&& out == sent
        },
        Some(sender) => exists|sealed: Result<Vec<u8>, outbound::Refusal>, next: Outbound|
            {
                &&& #[trigger] outbound::outbound_sends(
                    sent,
                    next,
                    sender.session(),
                    message,
                    sealed,
                )
                &&& match sealed {
                    Ok(bytes) => puts_message(before, tape, next, out, bytes@, result),
                    Err(refusal) => {
                        &&& result == Ok::<Result<Option<Vec<u8>>, Error>, Divergence>(
                            Err(refusal.error),
                        )
                        &&& tape == before
                        &&& out == next
                    },
                }
            },
    }
}

/// The frame of a message takes the place of the recorded output. A failure ends the
/// session.
spec fn puts_message(
    before: Tape,
    tape: Tape,
    sent: Outbound,
    out: Outbound,
    bytes: Seq<u8>,
    result: Result<Result<Option<Vec<u8>>, Error>, Divergence>,
) -> bool {
    exists|outcome: Result<Result<(), ErrorKind>, Divergence>| #[trigger]
        puts(before, tape, None, bytes, outcome) && match outcome {
            Ok(written) => {
                &&& outbound::outbound_settles(sent, out, written, None)
                &&& match written {
                    Ok(_) => result matches Ok(Ok(None)),
                    Err(kind) => result == Ok::<Result<Option<Vec<u8>>, Error>, Divergence>(
                        Err(Error::SendFailed(kind)),
                    ),
                }
            },
            Err(divergence) => {
                result == Err::<Result<Option<Vec<u8>>, Error>, Divergence>(divergence)
            },
        }
}

/// Replays the send of a message through a sender, if there is one.
fn send(
    tape: &mut Tape,
    writer: &mut Writer,
    out: &mut Outbound,
    sender: Option<Sender>,
    message: &Vec<u8>,
) -> (result: Result<Result<Option<Vec<u8>>, Error>, Divergence>)
    requires
        old(out).output() == outbound::Output::Settled,
        old(out).side() == Side::Client,
    ensures
        match result {
            Ok(_) => {
                &&& progresses(old(tape).remaining(), final(tape).remaining())
                &&& final(out).output() == outbound::Output::Settled
                &&& final(out).side() == Side::Client
                &&& final(out).sessions() == old(out).sessions()
            },
            Err(divergence) => divergence == Divergence::Order,
        },
        sends(*old(tape), *final(tape), *old(out), *final(out), sender, message@, result),
{
    let sender = match sender {
        Some(sender) => sender,
        None => return Ok(
            Err(Error::EncryptionFailed(String::from_str("no active session"))),
        ),
    };
    let sealed = sender.send(out, message.as_slice());
    let ghost next = *out;
    assert(outbound::outbound_sends(*old(out), next, sender.session(), message@, sealed));
    let bytes = match sealed {
        Ok(bytes) => bytes,
        Err(refusal) => return Ok(Err(refusal.error)),
    };
    let outcome = write_out(tape, writer, &bytes);
    assert(puts(*old(tape), *tape, None, bytes@, outcome));
    match outcome {
        Ok(outcome) => {
            let _ = out.sent(outcome);
            match outcome {
                Ok(_) => Ok(Ok(None)),
                Err(kind) => Ok(Err(Error::SendFailed(kind))),
            }
        },
        Err(divergence) => Err(divergence),
    }
}

/// A recorded scenario, along with the secrets needed to read its output.
pub struct Vector {
    pub scenario: String,  // Name of the scenario
    pub script: Vec<String>,  // Steps that it was recorded from
    pub write_failures: bool,  // Whether the script fails writes
    pub identity: Vec<u8>,  // Server identity key
    pub attestation: Vec<u8>,  // Attestation that the server presents
    pub server_keys: Vec<Vec<u8>>,  // Seeds of the server's encryption keys
    pub trace: Vec<Event>,  // Events in the order they happened
}

impl Vector {
    /// Whether the recorded server keys are keys.
    pub open spec fn keyed(self) -> bool {
        &&& self.identity@.len() == keys::VERIFYING_KEY_SIZE
        &&& keys::xdsa_parsed(self.identity@) is Some
        &&& forall|i: int|
            0 <= i < self.server_keys@.len() ==> (#[trigger] self.server_keys@[i])@.len()
                == keys::DECRYPTION_KEY_SIZE
    }
}

/// State of a replay between two calls.
pub struct Replay {
    tape: Tape,
    writer: Writer,
    client: Client,
    out: Outbound,
    peer: Peer,
    sender: Option<Sender>,  // Sender of the latest session
    retained: Option<Sender>,  // Sender kept beyond its session
}

impl Replay {
    /// Whether the replay stands between two calls of a trace. Every session took
    /// at least one event to establish.
    spec fn wf(self, trace: Seq<Event>) -> bool {
        &&& settled(self.client, self.out)
        &&& self.client.timeout() == super::server::DEFAULT_HANDSHAKE_TIMEOUT
        &&& self.tape.remaining().len() <= trace.len()
        &&& self.out.sessions() <= trace.len() - self.tape.remaining().len()
    }

    /// Whether the client never had a session, and nothing was left to be read.
    spec fn fresh(self) -> bool {
        &&& self.sender is None
        &&& self.retained is None
        &&& self.client.receiver() is None
        &&& self.client.input() == framing::boundary()
        &&& self.tape.buffered() == Seq::<u8>::empty()
        &&& self.tape.writes() == Seq::<Written>::empty()
    }

    /// Whether the sender of the latest session can still send.
    spec fn live(self) -> bool {
        self.sender is Some && self.out.bound() != outbound::UNBOUND
    }

    /// A handshake under recorded keys. The server must present the recorded
    /// attestation, and the sender is that of the session.
    spec fn shook(
        self,
        xdsa: Seq<u8>,
        xhpke: Seq<u8>,
        attestation: Seq<u8>,
        after: Replay,
        result: Result<Result<Option<Vec<u8>>, Error>, Divergence>,
    ) -> bool {
        if xdsa.len() != keys::SIGNING_KEY_SIZE || xhpke.len() != keys::DECRYPTION_KEY_SIZE {
            result == Err::<Result<Option<Vec<u8>>, Error>, Divergence>(Divergence::Key)
        } else {
            let hello = recorded_keys(xdsa, xhpke);
            &&& after.retained == self.retained
            &&& after.peer == (Peer {
                signer: Some(keys::xdsa_public(hello.signer)),
                ..self.peer
            })
            &&& exists|shaken: Result<Result<Attestation, Error>, Divergence>| #[trigger]
                shakes(
                    self.tape,
                    after.tape,
                    self.client.input(),
                    after.client,
                    self.out,
                    after.out,
                    &self.peer.identity,
                    hello,
                    shaken,
                ) && after.presents(shaken, attestation, result)
        }
    }

    /// What became of a handshake, by what the server presented in it.
    pub closed spec fn presents(
        self,
        shaken: Result<Result<Attestation, Error>, Divergence>,
        attestation: Seq<u8>,
        result: Result<Result<Option<Vec<u8>>, Error>, Divergence>,
    ) -> bool {
        match shaken {
            Ok(Ok(presented)) => if presented@ == attestation {
                &&& result matches Ok(Ok(None))
                &&& self.sender matches Some(sender)
                &&& sender.session() == self.out.bound()
            } else {
                result == Err::<Result<Option<Vec<u8>>, Error>, Divergence>(
                    Divergence::Attestation,
                )
            },
            Ok(Err(error)) => {
                &&& result == Ok::<Result<Option<Vec<u8>>, Error>, Divergence>(Err(error))
                &&& self.sender is None
            },
            Err(divergence) => {
                result == Err::<Result<Option<Vec<u8>>, Error>, Divergence>(divergence)
            },
        }
    }

    /// Replays a handshake. The server must present the recorded attestation.
    fn handshake(&mut self, xdsa: &Vec<u8>, xhpke: &Vec<u8>, attestation: &Vec<u8>) -> (result:
        Result<Result<Option<Vec<u8>>, Error>, Divergence>)
        requires
            settled(old(self).client, old(self).out),
            old(self).client.timeout() == super::server::DEFAULT_HANDSHAKE_TIMEOUT,
            old(self).out.sessions() < u64::MAX,
        ensures
            result is Ok ==> {
                &&& progresses(old(self).tape.remaining(), final(self).tape.remaining())
                &&& settled(final(self).client, final(self).out)
                &&& final(self).client.timeout() == old(self).client.timeout()
                &&& final(self).out.sessions() <= old(self).out.sessions() + 1
            },
            old(self).shook(xdsa@, xhpke@, attestation@, *final(self), result),
    {
        if xdsa.len() != keys::SIGNING_KEY_SIZE || xhpke.len() != keys::DECRYPTION_KEY_SIZE {
            return Err(Divergence::Key);
        }
        let hello = HelloKeys {
            signer: keys::seed_signing_key(xdsa.as_slice()),
            crypto: keys::seed_decryption_key(xhpke.as_slice()),
        };
        self.sender = None;
        self.peer.signer = Some(hello.signer.public_key());
        let shaken = shake(
            &mut self.tape,
            &mut self.writer,
            &mut self.client,
            &mut self.out,
            &self.peer.identity,
            hello,
        );
        assert(shakes(
            old(self).tape,
            self.tape,
            old(self).client.input(),
            self.client,
            old(self).out,
            self.out,
            &old(self).peer.identity,
            recorded_keys(xdsa@, xhpke@),
            shaken,
        ));
        match shaken {
            Ok(Ok(presented)) => {
                let presented = slice_to_vec(presented.as_bytes());
                if !same_bytes(&presented, attestation) {
                    return Err(Divergence::Attestation);
                }
                self.sender = Some(self.client.sender(&self.out));
                Ok(Ok(None))
            },
            Ok(Err(error)) => Ok(Err(error)),
            Err(divergence) => Err(divergence),
        }
    }

    /// The next event is taken off the tape.
    spec fn begins(self, begun: Replay) -> bool {
        &&& begun == (Replay { tape: begun.tape, ..self })
        &&& begun.tape.remaining() == self.tape.remaining().skip(1)
        &&& begun.tape.buffered() == self.tape.buffered()
        &&& begun.tape.chunk() == self.tape.chunk()
        &&& begun.tape.writes() == self.tape.writes()
        &&& !begun.tape.output_failed()
    }

    /// The result of a call is checked against the one recorded next, and its outputs
    /// against the recorded ones.
    spec fn closes(
        self,
        request: Option<Seq<u8>>,
        result: Result<Result<Option<Vec<u8>>, Error>, Divergence>,
        after: Replay,
        played: Result<(), Divergence>,
    ) -> bool {
        match result {
            Ok(result) => {
                &&& settles(
                    self.peer,
                    after.peer,
                    if self.tape.remaining().len() > 0 {
                        Some(self.tape.remaining()[0])
                    } else {
                        None
                    },
                    self.tape.writes(),
                    request,
                    result,
                    played,
                )
                &&& after == (Replay { tape: after.tape, peer: after.peer, ..self })
                &&& after.tape.writes() == Seq::<Written>::empty()
                &&& after.tape.buffered() == self.tape.buffered()
                &&& after.tape.chunk() == self.tape.chunk()
                &&& self.tape.remaining().len() > 0 ==> after.tape.remaining()
                    == self.tape.remaining().skip(1)
            },
            Err(divergence) => played == Err::<(), Divergence>(divergence),
        }
    }

    /// A call for a handshake.
    spec fn plays_handshake(
        self,
        xdsa: Seq<u8>,
        xhpke: Seq<u8>,
        attestation: Seq<u8>,
        after: Replay,
        played: Result<(), Divergence>,
    ) -> bool {
        exists|
            called: Replay,
            result: Result<Result<Option<Vec<u8>>, Error>, Divergence>,
        | #[trigger]
            self.shook(xdsa, xhpke, attestation, called, result) && called.closes(
                None,
                result,
                after,
                played,
            )
    }

    /// A call for the send of a message.
    spec fn plays_send(
        self,
        sender: Option<Sender>,
        message: Seq<u8>,
        after: Replay,
        played: Result<(), Divergence>,
    ) -> bool {
        exists|
            called: Replay,
            result: Result<Result<Option<Vec<u8>>, Error>, Divergence>,
        |
            {
                &&& called == (Replay {
                    tape: called.tape,
                    out: called.out,
                    writer: called.writer,
                    ..self
                })
                &&& sends(
                    self.tape,
                    called.tape,
                    self.out,
                    called.out,
                    sender,
                    message,
                    result,
                )
                &&& #[trigger] called.closes(Some(message), result, after, played)
            }
    }

    /// A call for the receipt of a message.
    spec fn plays_receive(self, after: Replay, played: Result<(), Divergence>) -> bool {
        exists|called: Replay, heard: Result<Result<Vec<u8>, Error>, Divergence>|
            {
                &&& called == (Replay {
                    tape: called.tape,
                    out: called.out,
                    client: called.client,
                    ..self
                })
                &&& #[trigger] listens(
                    self.tape,
                    called.tape,
                    self.client,
                    called.client,
                    self.out,
                    called.out,
                    heard,
                )
                &&& called.closes(None, replied(heard), after, played)
            }
    }

    /// An event is played, and everything up to the result if it is a call. The result
    /// has to be the recorded one, and so have the outputs.
    #[verifier::opaque]
    pub closed spec fn plays(
        self,
        attestation: Seq<u8>,
        after: Replay,
        played: Result<(), Divergence>,
    ) -> bool {
        exists|begun: Replay| #[trigger]
            self.begins(begun) && match self.tape.remaining()[0] {
                Event::Handshake { xdsa, xhpke } => begun.plays_handshake(
                    xdsa@,
                    xhpke@,
                    attestation,
                    after,
                    played,
                ),
                Event::Send { message } => begun.plays_send(
                    self.sender,
                    message@,
                    after,
                    played,
                ),
                Event::SendRetained { message } => begun.plays_send(
                    self.retained,
                    message@,
                    after,
                    played,
                ),
                Event::Recv => begun.plays_receive(after, played),
                Event::Retain => {
                    &&& played is Ok
                    &&& after == (Replay { retained: self.sender, ..begun })
                },
                Event::Session { established } => if established == self.live() {
                    played is Ok && after == begun
                } else {
                    played == Err::<(), Divergence>(Divergence::Session)
                },
                _ => played == Err::<(), Divergence>(Divergence::Call),
            }
    }

    /// An event is played as recorded.
    pub open spec fn passes(self, attestation: Seq<u8>, after: Replay) -> bool {
        exists|played: Result<(), Divergence>| #[trigger]
            self.plays(attestation, after, played) && played is Ok
    }

    /// Nothing was played yet, the client and its output being fresh and the peer
    /// having the recorded keys.
    pub closed spec fn starts(self, vector: Vector) -> bool {
        &&& self.tape.remaining() == vector.trace@
        &&& self.fresh()
        &&& self.client.phase() == Phase::Idle
        &&& self.out.context() is None
        &&& !self.out.resync()
        &&& keys::xdsa_parsed(vector.identity@) == Some(self.peer.identity)
        &&& self.peer.xhpke@ == vector.server_keys@.map_values(
            |seed: Vec<u8>| keys::xhpke_seeded(seed@),
        )
        &&& self.peer.signer is None
        &&& self.peer.receiver is None
    }

    /// Sender of the latest session.
    pub closed spec fn latest(self) -> Option<Sender> {
        self.sender
    }

    /// Sender kept beyond its session.
    pub closed spec fn kept(self) -> Option<Sender> {
        self.retained
    }

    /// Outgoing half of the client.
    pub closed spec fn outgoing(self) -> Outbound {
        self.out
    }

    /// Peer that the outputs are checked by.
    pub closed spec fn judge(self) -> Peer {
        self.peer
    }

    /// Events still to be played.
    pub closed spec fn ahead(self) -> Seq<Event> {
        self.tape.remaining()
    }

    /// Plays the next event and, if it is a call, everything up to its result.
    fn play(&mut self, attestation: &Vec<u8>, Ghost(trace): Ghost<Seq<Event>>) -> (played: Result<
        (),
        Divergence,
    >)
        requires
            old(self).wf(trace),
            old(self).tape.remaining().len() > 0,
            trace.len() <= usize::MAX,
        ensures
            played is Ok ==> {
                &&& final(self).wf(trace)
                &&& final(self).tape.remaining().len() < old(self).tape.remaining().len()
                &&& transcript(final(self).tape.remaining(), false) ==> transcript(
                    old(self).tape.remaining(),
                    false,
                )
            },
            old(self).plays(attestation@, *final(self), played),
    {
        let ghost events = self.tape.remaining();
        proof {
            reveal(Replay::plays);
        }
        self.tape.begin_call();
        let event = match self.tape.next() {
            Some(event) => event,
            None => return Err(Divergence::Ended),
        };
        let ghost begun = *self;
        assert(old(self).begins(begun));
        match event {
            Event::Handshake { xdsa, xhpke } => {
                let result = self.handshake(&xdsa, &xhpke, attestation);
                assert(begun.shook(xdsa@, xhpke@, attestation@, *self, result));
                match result {
                    Ok(result) => settle(&mut self.tape, &mut self.peer, None, result),
                    Err(divergence) => Err(divergence),
                }
            },
            Event::Send { message } => {
                let result = send(
                    &mut self.tape,
                    &mut self.writer,
                    &mut self.out,
                    self.sender,
                    &message,
                );
                let ghost called = *self;
                let ghost outcome = result;
                let played = match result {
                    Ok(result) => settle(&mut self.tape, &mut self.peer, Some(&message), result),
                    Err(divergence) => Err(divergence),
                };
                assert(called.closes(Some(message@), outcome, *self, played));
                played
            },
            Event::Retain => {
                self.retained = self.sender;
                Ok(())
            },
            Event::SendRetained { message } => {
                let result = send(
                    &mut self.tape,
                    &mut self.writer,
                    &mut self.out,
                    self.retained,
                    &message,
                );
                let ghost called = *self;
                let ghost outcome = result;
                let played = match result {
                    Ok(result) => settle(&mut self.tape, &mut self.peer, Some(&message), result),
                    Err(divergence) => Err(divergence),
                };
                assert(called.closes(Some(message@), outcome, *self, played));
                played
            },
            Event::Recv => {
                let result = receive(&mut self.tape, &mut self.client, &mut self.out);
                assert(listens(
                    begun.tape,
                    self.tape,
                    begun.client,
                    self.client,
                    begun.out,
                    self.out,
                    result,
                ));
                match result {
                    Ok(Ok(message)) => settle(
                        &mut self.tape,
                        &mut self.peer,
                        None,
                        Ok(Some(message)),
                    ),
                    Ok(Err(error)) => settle(&mut self.tape, &mut self.peer, None, Err(error)),
                    Err(divergence) => Err(divergence),
                }
            },
            Event::Session { established } => {
                let live = self.sender.is_some() && self.out.session_id() != outbound::UNBOUND;
                if live == established {
                    Ok(())
                } else {
                    Err(Divergence::Session)
                }
            },
            _ => Err(Divergence::Call),
        }
    }
}

/// Result of a receipt, as that of a call.
spec fn replied(
    heard: Result<Result<Vec<u8>, Error>, Divergence>,
) -> Result<Result<Option<Vec<u8>>, Error>, Divergence> {
    match heard {
        Ok(Ok(message)) => Ok(Ok(Some(message))),
        Ok(Err(error)) => Ok(Err(error)),
        Err(divergence) => Err(divergence),
    }
}

/// The states of a replay between the events of a transcript, each of which was played
/// as recorded.
pub open spec fn follows(vector: Vector, states: Seq<Replay>) -> bool {
    &&& states.len() >= 1
    &&& states[0].starts(vector)
    &&& forall|i: int|
        0 <= i < states.len() - 1 ==> {
            &&& (#[trigger] states[i]).ahead().len() > 0
            &&& states[i].passes(vector.attestation@, states[i + 1])
        }
}

/// What replaying a transcript comes to: every event was played as recorded, or one of
/// them was not.
pub open spec fn replays(vector: Vector, played: Result<(), Divergence>) -> bool {
    exists|states: Seq<Replay>| #[trigger]
        follows(vector, states) && match played {
            Ok(_) => states.last().ahead().len() == 0,
            Err(divergence) => {
                &&& states.last().ahead().len() > 0
                &&& exists|after: Replay| #[trigger]
                    states.last().plays(vector.attestation@, after, Err(divergence))
            },
        }
}

/// Another event was played as recorded.
proof fn lemma_follows_on(vector: Vector, states: Seq<Replay>, next: Replay)
    requires
        follows(vector, states),
        states.last().ahead().len() > 0,
        states.last().passes(vector.attestation@, next),
    ensures
        follows(vector, states.push(next)),
{
    let longer = states.push(next);
    assert forall|i: int| 0 <= i < longer.len() - 1 implies {
        &&& (#[trigger] longer[i]).ahead().len() > 0
        &&& longer[i].passes(vector.attestation@, longer[i + 1])
    } by {
        if i < states.len() - 1 {
            assert(states[i].ahead().len() > 0);
        }
    }
}

/// Runs a transcript against a fresh client and checks its calls and output. A run
/// that succeeds has played every event, each call up to its recorded result, with the
/// recorded outputs and under the recorded attestation. One that fails has come to an
/// event that was not played as recorded. What a call with a session comes to rests on
/// fresh keys and on the recorded ones agreeing, a transcript without a session runs
/// through.
pub fn run(vector: Vector) -> (played: Result<(), Divergence>)
    ensures
        played is Ok ==> transcript(vector.trace@, false),
        if vector.keyed() {
            replays(vector, played)
        } else {
            played == Err::<(), Divergence>(Divergence::Key)
        },
        vector.keyed() && sessionless(vector.trace@) ==> played is Ok,
{
    let peer = match Peer::new(&vector.identity, &vector.server_keys) {
        Some(peer) => peer,
        None => return Err(Divergence::Key),
    };
    let ghost whole = vector;
    let ghost trace = vector.trace@;
    let size: usize = vector.trace.len();
    let mut replay = Replay {
        tape: Tape::new(vector.trace),
        writer: Writer::new(),
        client: Client::new(),
        out: Outbound::new(Side::Client),
        peer,
        sender: None,
        retained: None,
    };
    let ghost mut states: Seq<Replay> = seq![replay];
    proof {
        assert(replay.peer.xhpke@ =~= whole.server_keys@.map_values(
            |seed: Vec<u8>| keys::xhpke_seeded(seed@),
        ));
        assert(follows(whole, states));
    }
    while !replay.tape.done()
        invariant
            replay.wf(trace),
            trace == whole.trace@,
            trace.len() == size,
            vector.attestation == whole.attestation,
            whole == vector,
            whole.keyed(),
            follows(whole, states),
            states.last() == replay,
            transcript(replay.tape.remaining(), false) ==> transcript(trace, false),
            sessionless(trace) ==> replay.fresh() && sessionless(replay.tape.remaining()),
        decreases replay.tape.remaining().len(),
    {
        let ghost before = replay;
        let played = replay.play(&vector.attestation, Ghost(trace));
        proof {
            if sessionless(trace) {
                lemma_sessionless(before, whole.attestation@, replay, played);
            }
        }
        match played {
            Ok(_) => {
                proof {
                    lemma_follows_on(whole, states, replay);
                    states = states.push(replay);
                }
            },
            Err(divergence) => return Err(divergence),
        }
    }
    Ok(())
}

/// An event of a transcript without a session is played as recorded.
proof fn lemma_sessionless(
    before: Replay,
    attestation: Seq<u8>,
    after: Replay,
    played: Result<(), Divergence>,
)
    requires
        before.fresh(),
        before.tape.remaining().len() > 0,
        sessionless(before.tape.remaining()),
        before.plays(attestation, after, played),
    ensures
        played is Ok,
        after.fresh(),
        sessionless(after.tape.remaining()),
{
    reveal(Replay::plays);
    let events = before.tape.remaining();
    let begun = choose|begun: Replay| #[trigger] before.begins(begun) && match events[0] {
        Event::Handshake { xdsa, xhpke } => begun.plays_handshake(
            xdsa@,
            xhpke@,
            attestation,
            after,
            played,
        ),
        Event::Send { message } => begun.plays_send(before.sender, message@, after, played),
        Event::SendRetained { message } => begun.plays_send(
            before.retained,
            message@,
            after,
            played,
        ),
        Event::Recv => begun.plays_receive(after, played),
        Event::Retain => {
            &&& played is Ok
            &&& after == (Replay { retained: before.sender, ..begun })
        },
        Event::Session { established } => if established == before.live() {
            played is Ok && after == begun
        } else {
            played == Err::<(), Divergence>(Divergence::Session)
        },
        _ => played == Err::<(), Divergence>(Divergence::Call),
    };
    assert(events.len() >= 2 ==> events.skip(2) =~= events.skip(1).skip(1));
    match events[0] {
        Event::Handshake { xdsa, xhpke } => {
            lemma_refused_handshake(
                begun,
                events,
                xdsa@,
                xhpke@,
                attestation,
                after,
                played,
            );
        },
        _ => {},
    }
}

/// Output that a failure is recorded for fails, all of it having been accepted.
proof fn lemma_puts_failed(
    before: Tape,
    after: Tape,
    bytes: Seq<u8>,
    outcome: Result<Result<(), ErrorKind>, Divergence>,
)
    requires
        puts(before, after, None, bytes, outcome),
        bytes.len() > 1,
        before.remaining().len() > 0,
        tape::output_of(before.remaining()[0]) matches Some((recorded, failure)) && recorded
            == bytes && failure is Some,
    ensures
        outcome matches Ok(Err(_)),
        after.remaining() == before.remaining().skip(1),
        after.buffered() == before.buffered(),
        after.writes().len() == before.writes().len() + 1,
        after.writes().drop_last() == before.writes(),
        after.writes().last().recorded@ == bytes,
        after.writes().last().actual@ == bytes,
        after.writes().last().failed,
{
    lemma_puts_all(before, after, bytes, outcome);
}

/// Output is accepted whole where as much of it was recorded, and then flushed.
proof fn lemma_puts_all(
    before: Tape,
    after: Tape,
    bytes: Seq<u8>,
    outcome: Result<Result<(), ErrorKind>, Divergence>,
)
    requires
        puts(before, after, None, bytes, outcome),
        bytes.len() > 1,
        before.remaining().len() > 0,
        tape::output_of(before.remaining()[0]) matches Some((recorded, _)) && recorded == bytes,
    ensures
        exists|next: Tape, left: Option<ErrorKind>, output: Output|
            {
                &&& #[trigger] tape::captures(
                    before,
                    next,
                    None,
                    left,
                    bytes,
                    Output::Accepted(bytes.len() as usize),
                )
                &&& #[trigger] tape::flushes(next, after, left, None, output)
                &&& outcome == flushed(output)
                &&& next.writes().last().actual@ == bytes
            },
{
    let size = match before.remaining()[0] {
        Event::Write { bytes: recorded, .. } => recorded.len(),
        Event::WriteTimedOut { bytes: recorded } => recorded.len(),
        _ => 0,
    };
    assert(bytes.len() == size);
    assert(bytes.take(bytes.len() as int) =~= bytes);
    let (next, left, output) = choose|next: Tape, left: Option<ErrorKind>, output: Output|
        #[trigger]
        tape::captures(before, next, None, left, bytes, output) && match output {
            Output::Accepted(size) => {
                &&& 0 < size <= bytes.len()
                &&& puts(next, after, left, bytes.skip(size as int), outcome)
            },
            Output::Failed(kind) => {
                &&& after == next
                &&& outcome == Ok::<Result<(), ErrorKind>, Divergence>(Err(kind))
            },
            Output::Diverged => {
                &&& after == next
                &&& outcome == Err::<Result<(), ErrorKind>, Divergence>(Divergence::Order)
            },
        };
    assert(output == Output::Accepted(size));
    let rest = bytes.skip(size as int);
    assert(rest.len() == 0);
    assert(puts(next, after, left, rest, outcome));
    let last = choose|output: Output| #[trigger]
        tape::flushes(next, after, left, None, output) && outcome == flushed(output);
    assert(tape::flushes(next, after, left, None, last));
}

/// Output that was recorded to go out goes out.
proof fn lemma_puts_whole(
    before: Tape,
    after: Tape,
    bytes: Seq<u8>,
    outcome: Result<Result<(), ErrorKind>, Divergence>,
)
    requires
        puts(before, after, None, bytes, outcome),
        bytes.len() > 1,
        before.remaining().len() >= 2,
        before.remaining()[0] matches Event::Write { bytes: recorded, failed } && recorded@ == bytes
            && !failed,
        tape::flush_of(before.remaining()[1]) is None,
    ensures
        outcome matches Ok(Ok(_)),
        after.remaining() == before.remaining().skip(1),
        after.buffered() == before.buffered(),
        after.output_failed() == before.output_failed(),
        after.writes().len() == before.writes().len() + 1,
        after.writes().drop_last() == before.writes(),
        after.writes().last().recorded@ == bytes,
        after.writes().last().actual@ == bytes,
        !after.writes().last().failed,
{
    lemma_puts_all(before, after, bytes, outcome);
    assert(before.remaining().skip(1)[0] == before.remaining()[1]);
}

/// A handshake of a transcript without a session is played as recorded.
proof fn lemma_refused_handshake(
    begun: Replay,
    events: Seq<Event>,
    xdsa: Seq<u8>,
    xhpke: Seq<u8>,
    attestation: Seq<u8>,
    after: Replay,
    played: Result<(), Divergence>,
)
    requires
        begun.fresh(),
        !begun.tape.output_failed(),
        begun.tape.remaining() == events.skip(1),
        xdsa.len() == keys::SIGNING_KEY_SIZE,
        xhpke.len() == keys::DECRYPTION_KEY_SIZE,
        ({
            ||| mute(events) && sessionless(events.skip(3))
            ||| deaf(events, recorded_keys(xdsa, xhpke)) && sessionless(events.skip(5))
        }),
        begun.plays_handshake(xdsa, xhpke, attestation, after, played),
    ensures
        played is Ok,
        after.fresh(),
        sessionless(after.tape.remaining()),
{
    let hello = recorded_keys(xdsa, xhpke);
    let (called, result) = choose|
        called: Replay,
        result: Result<Result<Option<Vec<u8>>, Error>, Divergence>,
    | #[trigger]
        begun.shook(xdsa, xhpke, attestation, called, result) && called.closes(
            None,
            result,
            after,
            played,
        );
    let shaken = choose|shaken: Result<Result<Attestation, Error>, Divergence>| #[trigger]
        shakes(
            begun.tape,
            called.tape,
            begun.client.input(),
            called.client,
            begun.out,
            called.out,
            &begun.peer.identity,
            hello,
            shaken,
        ) && called.presents(shaken, attestation, result);
    let count = if mute(events) {
        lemma_mute(begun, events, hello, called, shaken);
        3int
    } else {
        lemma_deaf(begun, events, hello, called, shaken);
        5
    };
    let left = events.skip(count - 1);
    assert(called.tape.remaining() =~= left);
    assert(left[0] == events[count - 1]);
    assert(left.skip(1) =~= events.skip(count));
    let writes = called.tape.writes();
    assert forall|i: int, peer: Peer, next: Peer, mismatch: Mismatch| 0 <= i < writes.len() implies
        !#[trigger] receives(peer, next, writes[i], None, Err(mismatch)) by {
    }
    assert(as_recorded(result->Ok_0, left[0]));
    if let Err(divergence) = played {
        assert(divergence is Output);
        let mismatch = divergence->Output_0;
        let (peers, at) = choose|peers: Seq<Peer>, at: int|
            {
                &&& 0 <= at < writes.len()
                &&& #[trigger] receives_all(peers, writes.take(at), None)
                &&& peers[0] == called.peer
                &&& receives(peers.last(), after.peer, writes[at], None, Err(mismatch))
            };
        assert(!receives(peers.last(), after.peer, writes[at], None, Err(mismatch)));
    }
}

/// Whether all outputs of a call match the recording, whatever the peer knows.
spec fn plain_writes(tape: Tape) -> bool {
    forall|i: int, peer: Peer|
        0 <= i < tape.writes().len() ==> (#[trigger] checker::receipt(
            peer,
            tape.writes()[i].recorded@,
            tape.writes()[i].actual@,
            tape.writes()[i].failed,
            None,
        )) is Ok
}

/// A handshake whose reset was recorded to fail is refused over that.
proof fn lemma_mute(
    begun: Replay,
    events: Seq<Event>,
    hello: HelloKeys,
    called: Replay,
    shaken: Result<Result<Attestation, Error>, Divergence>,
)
    requires
        begun.fresh(),
        begun.tape.remaining() == events.skip(1),
        mute(events),
        shakes(
            begun.tape,
            called.tape,
            begun.client.input(),
            called.client,
            begun.out,
            called.out,
            &begun.peer.identity,
            hello,
            shaken,
        ),
    ensures
        shaken matches Ok(Err(error)) && error is SendFailed,
        called.client.receiver() is None,
        called.client.input() == framing::boundary(),
        called.tape.remaining() == events.skip(2),
        called.tape.buffered() == Seq::<u8>::empty(),
        plain_writes(called.tape),
{
    assert(events.skip(1)[0] == events[1]);
    assert(events.skip(1).skip(1) =~= events.skip(2));
    assert(reset_signal() =~= seq![0u8, 0u8]);
    assert forall|after: Tape, outcome: Result<Result<(), ErrorKind>, Divergence>| #[trigger]
        puts(begun.tape, after, None, reset_signal(), outcome) implies {
        &&& outcome matches Ok(Err(_))
        &&& after.remaining() == events.skip(2)
        &&& after.buffered() == Seq::<u8>::empty()
        &&& after.writes().len() == 1
        &&& after.writes()[0].recorded@ == seq![0u8, 0u8]
        &&& after.writes()[0].actual@ == seq![0u8, 0u8]
    } by {
        lemma_puts_failed(begun.tape, after, reset_signal(), outcome);
    }
}

/// A handshake whose input was recorded to end behind its hello is refused over that.
proof fn lemma_deaf(
    begun: Replay,
    events: Seq<Event>,
    hello: HelloKeys,
    called: Replay,
    shaken: Result<Result<Attestation, Error>, Divergence>,
)
    requires
        begun.fresh(),
        !begun.tape.output_failed(),
        begun.tape.remaining() == events.skip(1),
        deaf(events, hello),
        shakes(
            begun.tape,
            called.tape,
            begun.client.input(),
            called.client,
            begun.out,
            called.out,
            &begun.peer.identity,
            hello,
            shaken,
        ),
    ensures
        shaken matches Ok(Err(error)) && events[4] matches Event::Refused { kind } && kind@
            == error.name(),
        called.client.receiver() is None,
        called.client.input() == framing::boundary(),
        called.tape.remaining() == events.skip(4),
        called.tape.buffered() == Seq::<u8>::empty(),
        plain_writes(called.tape),
{
    let announced = announcement(hello);
    assert(events.skip(1)[0] == events[1] && events.skip(1)[1] == events[2]);
    assert(events.skip(1).skip(1) =~= events.skip(2));
    assert(events.skip(2)[0] == events[2] && events.skip(2)[1] == events[3]);
    assert(events.skip(2).skip(1) =~= events.skip(3));
    assert(events.skip(3)[0] == events[3]);
    assert(events.skip(3).skip(1) =~= events.skip(4));
    assert(reset_signal() =~= seq![0u8, 0u8]);
    assert forall|after: Tape, outcome: Result<Result<(), ErrorKind>, Divergence>| #[trigger]
        puts(begun.tape, after, None, reset_signal(), outcome) implies {
        &&& outcome matches Ok(Ok(_))
        &&& after.remaining() == events.skip(2)
        &&& after.buffered() == Seq::<u8>::empty()
        &&& !after.output_failed()
        &&& after.writes().len() == 1
        &&& after.writes()[0].recorded@ == seq![0u8, 0u8]
        &&& after.writes()[0].actual@ == seq![0u8, 0u8]
    } by {
        lemma_puts_whole(begun.tape, after, reset_signal(), outcome);
    }
    assert(legible(hello));
    assert forall|
        reset: Tape,
        after: Tape,
        outcome: Result<Result<(), ErrorKind>, Divergence>,
    |
        #[trigger] goes_out(begun.tape, reset, reset_signal()) && #[trigger] puts(
            reset,
            after,
            None,
            announced,
            outcome,
        ) implies {
        &&& outcome matches Ok(Ok(_))
        &&& after.remaining() == events.skip(3)
        &&& after.buffered() == Seq::<u8>::empty()
        &&& !after.output_failed()
        &&& hello_writes(after, announced)
    } by {
        let gone = choose|gone: Result<Result<(), ErrorKind>, Divergence>| #[trigger]
            puts(begun.tape, reset, None, reset_signal(), gone) && gone is Ok && gone->Ok_0 is Ok;
        lemma_puts_whole(reset, after, announced, outcome);
        assert(after.writes()[0] == after.writes().drop_last()[0]);
    }
    let (reset, tape, chunks, tapes) = choose|
        reset: Tape,
        announced: Tape,
        chunks: Seq<Seq<u8>>,
        tapes: Seq<Tape>,
    |
        {
            &&& #[trigger] goes_out(begun.tape, reset, reset_signal())
            &&& goes_out(reset, announced, announcement(hello))
            &&& #[trigger] awaits(hello, begun.client.input(), announced, chunks, tapes)
            &&& decides(
                &begun.peer.identity,
                hello,
                framing::extended(begun.client.input(), framing::joined(chunks)),
                tapes.last(),
                called.tape,
                called.client,
                called.out,
                begun.out,
                shaken,
            )
        };
    let gone = choose|gone: Result<Result<(), ErrorKind>, Divergence>| #[trigger]
        puts(reset, tape, None, announced, gone) && gone is Ok && gone->Ok_0 is Ok;
    assert(tape.remaining() == events.skip(3));
    assert(tape::past_empty(events.skip(3)) == events.skip(3));
    reveal(awaits);
    if chunks.len() > 0 {
        assert(brings(tapes[0], tapes[1], chunks[0]));
    }
    framing::lemma_extends(framing::boundary(), Seq::empty(), Seq::empty());
    framing::lemma_first_zero(Seq::<u8>::empty());
    assert(chunks =~= Seq::<Seq<u8>>::empty());
    assert(answer_in(hello, framing::boundary()) is None);
    assert(framing::drained(framing::boundary()) == framing::boundary());
    lemma_hello_writes(called.tape, hello);
}

/// The outputs of a handshake up to its hello, as recorded.
spec fn hello_writes(tape: Tape, announced: Seq<u8>) -> bool {
    &&& tape.writes().len() == 2
    &&& tape.writes()[0].recorded@ == seq![0u8, 0u8]
    &&& tape.writes()[0].actual@ == seq![0u8, 0u8]
    &&& tape.writes()[1].recorded@ == announced
    &&& tape.writes()[1].actual@ == announced
}

/// Reset and hello match the recording.
proof fn lemma_hello_writes(tape: Tape, hello: HelloKeys)
    requires
        legible(hello),
        hello_writes(tape, announcement(hello)),
    ensures
        plain_writes(tape),
{
    let body = cobs::cobs_encoded(hello.pair());
    let frame = announcement(hello);
    assert(frame.drop_last() =~= body);
    assert(frame[0] == body[0]);
    assert(frame.last() == 0);
}

/// A call passes only with the very result that was recorded for it: the same reply, byte
/// for byte, no reply where none was recorded, or an error of the recorded kind. Any other
/// result is told to differ, and a missing one to be the transcript's end.
pub proof fn law_result_is_compared(
    before: Peer,
    after: Peer,
    recorded: Option<Event>,
    writes: Seq<Written>,
    request: Option<Seq<u8>>,
    result: Result<Option<Vec<u8>>, Error>,
    settled: Result<(), Divergence>,
)
    requires
        settles(before, after, recorded, writes, request, result, settled),
    ensures
        ({
            let same = match (recorded, result) {
                (Some(Event::Returned { reply: Some(reply) }), Ok(Some(bytes))) => reply@ == bytes@,
                (Some(Event::Returned { reply: None }), Ok(None)) => true,
                (Some(Event::Refused { kind }), Err(error)) => kind@ == error.name(),
                _ => false,
            };
            &&& settled is Ok ==> same
            &&& recorded is Some && !same ==> settled == Err::<(), Divergence>(Divergence::Outcome)
            &&& recorded is None ==> settled == Err::<(), Divergence>(Divergence::Ended)
            &&& same && writes.len() == 0 ==> settled is Ok
            &&& same && settled is Err ==> settled->Err_0 is Output
        }),
        writes.len() == 0 ==> after == before,
{
    if settled is Ok && writes.len() == 0 {
        let peers = choose|peers: Seq<Peer>|
            {
                &&& #[trigger] receives_all(peers, writes, request)
                &&& peers[0] == before
                &&& peers.last() == after
            };
        assert(peers.last() == peers[0]);
    }
}

/// A call passes only if every one of its outputs does. Signals and unfinished output that
/// did not fail when recorded are the recorded bytes, and every request opens to the very
/// message sent.
pub proof fn law_outputs_are_compared(
    before: Peer,
    after: Peer,
    recorded: Option<Event>,
    writes: Seq<Written>,
    request: Option<Seq<u8>>,
    result: Result<Option<Vec<u8>>, Error>,
    at: int,
)
    requires
        settles(before, after, recorded, writes, request, result, Ok(())),
        0 <= at < writes.len(),
    ensures
        ({
            let actual = writes[at].actual@;
            let plain = actual.len() == 0 || actual.last() != 0 || forall|i: int|
                0 <= i < actual.len() ==> actual[i] == 0;
            plain && !writes[at].failed ==> actual == writes[at].recorded@
        }),
        forall|packet: Seq<u8>|
            {
                &&& #[trigger] checker::holds_packet(
                    writes[at].recorded@,
                    writes[at].actual@,
                    packet,
                )
                &&& handshake::hello_keys(packet) is None
                &&& envelope::cose_recipient(packet) is None
            } ==> exists|context: Seq<u8>, sequence: nat|
                request is Some && #[trigger] sealing::message_of(context, sequence, packet)
                    == request,
{
    let peers = choose|peers: Seq<Peer>|
        {
            &&& #[trigger] receives_all(peers, writes, request)
            &&& peers[0] == before
            &&& peers.last() == after
        };
    let written = writes[at];
    assert(receives(peers[at], peers[at + 1], written, request, Ok(())));
    let actual = written.actual@;
    if actual.len() == 0 || actual.last() != 0 || forall|i: int|
        0 <= i < actual.len() ==> actual[i] == 0 {
        checker::law_plain_output_is_compared(
            peers[at],
            peers[at + 1],
            written.recorded@,
            actual,
            written.failed,
            request,
            Ok(()),
        );
    }
    assert forall|packet: Seq<u8>|
        {
            &&& #[trigger] checker::holds_packet(written.recorded@, actual, packet)
            &&& handshake::hello_keys(packet) is None
            &&& envelope::cose_recipient(packet) is None
        } implies exists|context: Seq<u8>, sequence: nat|
        request is Some && #[trigger] sealing::message_of(context, sequence, packet) == request by {
        checker::law_request_is_compared(
            peers[at],
            peers[at + 1],
            written.recorded@,
            actual,
            written.failed,
            request,
            packet,
            Ok(()),
        );
        let receiver = peers[at].receiver->0;
        assert(sealing::message_of(
            sealing::receiver_context(receiver),
            sealing::receiver_sequence(receiver),
            packet,
        ) == request);
    }
}

/// Everything that outputs hold, one after the other.
pub open spec fn accepted(writes: Seq<Written>) -> Seq<u8>
    decreases writes.len(),
{
    if writes.len() == 0 {
        Seq::empty()
    } else {
        accepted(writes.drop_last()) + writes.last().actual@
    }
}

/// Output that went out is kept for the comparison whole: what is kept of it is what the
/// client wrote, in order, behind what was kept before.
pub proof fn law_output_is_kept_whole(
    before: Tape,
    after: Tape,
    pending: Option<ErrorKind>,
    bytes: Seq<u8>,
    outcome: Result<Result<(), ErrorKind>, Divergence>,
)
    requires
        puts(before, after, pending, bytes, outcome),
        outcome is Ok && outcome->Ok_0 is Ok,
        bytes.len() <= usize::MAX,
    ensures
        accepted(after.writes()) == accepted(before.writes()) + bytes,
        pending is None,
    decreases bytes.len(),
{
    if bytes.len() == 0 {
        assert(accepted(before.writes()) + bytes =~= accepted(before.writes()));
    } else {
        let (next, left, output) = choose|next: Tape, left: Option<ErrorKind>, output: Output|
            #[trigger]
            tape::captures(before, next, pending, left, bytes, output) && match output {
                Output::Accepted(size) => {
                    &&& 0 < size <= bytes.len()
                    &&& puts(next, after, left, bytes.skip(size as int), outcome)
                },
                Output::Failed(kind) => {
                    &&& after == next
                    &&& outcome == Ok::<Result<(), ErrorKind>, Divergence>(Err(kind))
                },
                Output::Diverged => {
                    &&& after == next
                    &&& outcome == Err::<Result<(), ErrorKind>, Divergence>(Divergence::Order)
                },
            };
        let size = output->Accepted_0 as int;
        law_output_is_kept_whole(next, after, left, bytes.skip(size), outcome);
        assert(next.writes().last().actual@ == bytes.take(size));
        assert(accepted(next.writes()) =~= accepted(before.writes()) + bytes.take(size));
        assert(accepted(before.writes()) + bytes.take(size) + bytes.skip(size) =~= accepted(
            before.writes(),
        ) + bytes);
    }
}

/// A handshake passes only with a server that presented the recorded attestation, byte for
/// byte. Another one is told to differ.
pub proof fn law_attestation_is_compared(
    after: Replay,
    presented: Attestation,
    attestation: Seq<u8>,
    result: Result<Result<Option<Vec<u8>>, Error>, Divergence>,
)
    requires
        after.presents(Ok(Ok(presented)), attestation, result),
    ensures
        result is Ok <==> presented@ == attestation,
        presented@ != attestation ==> result->Err_0 == Divergence::Attestation,
        presented@ == attestation ==> {
            &&& after.latest() matches Some(sender)
            &&& sender.session() == after.outgoing().bound()
        },
{
}

/// What is recorded of the latest session is what there is: it is established exactly while
/// it has a sender and is the bound one.
pub proof fn law_session_is_compared(
    before: Replay,
    attestation: Seq<u8>,
    after: Replay,
    played: Result<(), Divergence>,
    established: bool,
)
    requires
        before.plays(attestation, after, played),
        before.ahead().len() > 0,
        before.ahead()[0] == (Event::Session { established }),
    ensures
        played is Ok <==> established == (before.latest() is Some
            && before.outgoing().context() is Some && before.outgoing().sessions() != 0),
        played is Err ==> played == Err::<(), Divergence>(Divergence::Session),
        played is Ok ==> {
            &&& after.ahead() == before.ahead().skip(1)
            &&& after.latest() == before.latest()
            &&& after.kept() == before.kept()
            &&& after.outgoing() == before.outgoing()
            &&& after.judge() == before.judge()
        },
{
    reveal(Replay::plays);
}

/// The sender kept is the one of the latest session at that time, whatever was kept before.
pub proof fn law_latest_sender_is_kept(
    before: Replay,
    attestation: Seq<u8>,
    after: Replay,
    played: Result<(), Divergence>,
)
    requires
        before.plays(attestation, after, played),
        before.ahead().len() > 0,
        before.ahead()[0] == Event::Retain,
    ensures
        played is Ok,
        after.kept() == before.latest(),
        after.latest() == before.latest(),
        after.ahead() == before.ahead().skip(1),
        after.outgoing() == before.outgoing(),
        after.judge() == before.judge(),
{
    reveal(Replay::plays);
}

/// Where a call is due, anything but a call and what is done with its sender is told to be
/// out of place.
pub proof fn law_stray_event_diverges(
    before: Replay,
    attestation: Seq<u8>,
    after: Replay,
    played: Result<(), Divergence>,
)
    requires
        before.plays(attestation, after, played),
        before.ahead().len() > 0,
        match before.ahead()[0] {
            Event::Handshake { .. } | Event::Send { .. } | Event::SendRetained { .. } => false,
            Event::Recv | Event::Retain | Event::Session { .. } => false,
            _ => true,
        },
    ensures
        played == Err::<(), Divergence>(Divergence::Call),
{
    reveal(Replay::plays);
}

/// A message is sent through the sender that the event names, the latest or the one kept.
/// One whose session is not the bound one is refused before anything goes out, and the call
/// passes only if just that was recorded.
pub proof fn law_stale_sender_is_refused(
    before: Replay,
    attestation: Seq<u8>,
    after: Replay,
    played: Result<(), Divergence>,
    message: Vec<u8>,
)
    requires
        before.plays(attestation, after, played),
        before.ahead().len() > 0,
        ({
            let sender = match before.ahead()[0] {
                Event::Send { message: sent } => if sent == message {
                    Some(before.latest())
                } else {
                    None
                },
                Event::SendRetained { message: sent } => if sent == message {
                    Some(before.kept())
                } else {
                    None
                },
                _ => None,
            };
            &&& sender matches Some(handle)
            &&& handle matches Some(handle) ==> !before.outgoing().bound_is(handle.session())
        }),
        played is Ok,
    ensures
        before.ahead().len() > 1,
        before.ahead()[1] matches Event::Refused { kind } && kind@ == "EncryptionFailed"@,
        after.ahead() == before.ahead().skip(2),
        after.outgoing() == before.outgoing(),
{
    reveal(Replay::plays);
}

/// The answer to a hello is the first packet among the frames of an input that is sealed to
/// its keys. None is missed, and no other is taken for it.
pub proof fn law_answer_is_the_first(hello: HelloKeys, input: framing::Input)
    ensures
        match answer_in(hello, input) {
            Some(packet) => exists|i: int|
                {
                    &&& 0 <= i < framing::items(input).len()
                    &&& framing::arrival(#[trigger] framing::items(input)[i]) == Arrival::Packet(
                        packet,
                    )
                    &&& envelope::cose_recipient(packet) == Some(
                        keys::xhpke_fingerprint(keys::xhpke_public(hello.crypto)),
                    )
                    &&& forall|j: int|
                        0 <= j < i ==> (framing::arrival(
                            #[trigger] framing::items(input)[j],
                        ) matches Arrival::Packet(other) ==> !hello.addressed(other))
                },
            None => forall|i: int|
                0 <= i < framing::items(input).len() ==> (framing::arrival(
                    #[trigger] framing::items(input)[i],
                ) matches Arrival::Packet(other) ==> !hello.addressed(other)),
        },
    decreases input.pending.len(),
{
    if let Some(item) = framing::next_item(input) {
        framing::lemma_item_consumes(input);
        let rest = framing::after_item(input);
        let read = framing::items(input);
        let others = framing::items(rest);
        assert(read == seq![item] + others);
        assert(read[0] == item);
        assert(forall|i: int| 0 < i < read.len() ==> #[trigger] read[i] == others[i - 1]);
        let found = framing::arrival(item) matches Arrival::Packet(packet) && hello.addressed(
            packet,
        );
        if !found {
            law_answer_is_the_first(hello, rest);
            if let Some(packet) = answer_in(hello, rest) {
                let i = choose|i: int|
                    {
                        &&& 0 <= i < others.len()
                        &&& framing::arrival(#[trigger] others[i]) == Arrival::Packet(packet)
                        &&& envelope::cose_recipient(packet) == Some(
                            keys::xhpke_fingerprint(keys::xhpke_public(hello.crypto)),
                        )
                        &&& forall|j: int|
                            0 <= j < i ==> (framing::arrival(
                                #[trigger] others[j],
                            ) matches Arrival::Packet(other) ==> !hello.addressed(other))
                    };
                assert(read[i + 1] == others[i]);
                assert forall|j: int| 0 <= j < i + 1 implies (framing::arrival(
                    #[trigger] read[j],
                ) matches Arrival::Packet(other) ==> !hello.addressed(other)) by {
                    if j > 0 {
                        assert(read[j] == others[j - 1]);
                    }
                }
            } else {
                assert forall|i: int| 0 <= i < read.len() implies (framing::arrival(
                    #[trigger] read[i],
                ) matches Arrival::Packet(other) ==> !hello.addressed(other)) by {
                    if i > 0 {
                        assert(read[i] == others[i - 1]);
                    }
                }
            }
        }
    }
}

/// A read that ends a call ends it as recorded: the end of the stream terminates it, and any
/// other failure is handed on.
pub proof fn law_failed_read_is_told(before: Tape, after: Tape, error: Error, recorded: ReadError)
    requires
        breaks(before, after, error),
        before.buffered().len() == 0,
        before.remaining().len() > 0,
        before.remaining()[0] == (Event::ReadFailed { error: recorded }),
    ensures
        recorded == ReadError::Eof ==> error == Error::Terminated,
        recorded == ReadError::Failed ==> error == Error::RecvFailed(ErrorKind::WouldBlock),
        recorded != ReadError::Interrupted,
        recorded != ReadError::TimedOut,
{
}

/// Checking outputs never changes whose handshake the peer follows.
proof fn lemma_signer_stays(
    peers: Seq<Peer>,
    writes: Seq<Written>,
    request: Option<Seq<u8>>,
    at: int,
)
    requires
        receives_all(peers, writes, request),
        0 <= at < peers.len(),
    ensures
        peers[at].signer == peers[0].signer,
    decreases at,
{
    if at > 0 {
        lemma_signer_stays(peers, writes, request, at - 1);
        assert(receives(peers[at - 1], peers[at], writes[at - 1], request, Ok(())));
    }
}

/// A handshake is played under the recorded keys: seeds of another size are none, and the
/// acks that follow are checked against the very key that signs them.
pub proof fn law_recorded_keys_are_used(
    before: Replay,
    attestation: Seq<u8>,
    after: Replay,
    played: Result<(), Divergence>,
    xdsa: Vec<u8>,
    xhpke: Vec<u8>,
)
    requires
        before.plays(attestation, after, played),
        before.ahead().len() > 0,
        before.ahead()[0] == (Event::Handshake { xdsa, xhpke }),
    ensures
        xdsa@.len() != keys::SIGNING_KEY_SIZE || xhpke@.len() != keys::DECRYPTION_KEY_SIZE
            ==> played == Err::<(), Divergence>(Divergence::Key),
        played is Ok ==> after.judge().signer == Some(keys::xdsa_public(keys::xdsa_seeded(xdsa@))),
{
    reveal(Replay::plays);
    if played is Ok {
        let begun = choose|begun: Replay| #[trigger]
            before.begins(begun) && begun.plays_handshake(
                xdsa@,
                xhpke@,
                attestation,
                after,
                played,
            );
        let (called, result) = choose|
            called: Replay,
            result: Result<Result<Option<Vec<u8>>, Error>, Divergence>,
        | #[trigger]
            begun.shook(xdsa@, xhpke@, attestation, called, result) && called.closes(
                None,
                result,
                after,
                played,
            );
        let writes = called.tape.writes();
        let peers = choose|peers: Seq<Peer>|
            {
                &&& #[trigger] receives_all(peers, writes, None)
                &&& peers[0] == called.peer
                &&& peers.last() == after.peer
            };
        lemma_signer_stays(peers, writes, None, peers.len() - 1);
    }
}

/// Number of calls among events.
pub open spec fn calls(events: Seq<Event>) -> nat
    decreases events.len(),
{
    if events.len() == 0 {
        0
    } else {
        calls(events.skip(1)) + match events[0] {
            Event::Handshake { .. } | Event::Send { .. } => 1nat,
            Event::SendRetained { .. } | Event::Recv => 1nat,
            _ => 0nat,
        }
    }
}

/// Number of results among events.
pub open spec fn results(events: Seq<Event>) -> nat
    decreases events.len(),
{
    if events.len() == 0 {
        0
    } else {
        results(events.skip(1)) + match events[0] {
            Event::Returned { .. } | Event::Refused { .. } => 1nat,
            _ => 0nat,
        }
    }
}

/// Every call of a transcript has its result, and there is none without a call.
pub proof fn law_every_call_has_a_result(events: Seq<Event>, within: bool)
    requires
        transcript(events, within),
    ensures
        results(events) == calls(events) + (if within {
            1nat
        } else {
            0nat
        }),
    decreases events.len(),
{
    if events.len() > 0 {
        if within {
            law_every_call_has_a_result(events.skip(1), is_io(events[0]));
        } else {
            law_every_call_has_a_result(events.skip(1), is_call(events[0]));
        }
    }
}

/// A client that never had a session can be asked to send and to receive, to keep its sender
/// and for its session, as often as one likes: with the refusals recorded, the transcript
/// stays one that runs through.
pub proof fn law_refusals_run_through(event: Event, refusal: Event, rest: Seq<Event>)
    requires
        sessionless(rest),
        refusal matches Event::Refused { kind } && kind@ == "EncryptionFailed"@,
    ensures
        event is Send || event is SendRetained || event is Recv ==> sessionless(
            seq![event, refusal] + rest,
        ),
        event is Retain ==> sessionless(seq![event] + rest),
        event == (Event::Session { established: false }) ==> sessionless(seq![event] + rest),
        event == (Event::Session { established: true }) ==> !sessionless(seq![event] + rest),
{
    assert((seq![event, refusal] + rest).skip(2) =~= rest);
    assert((seq![event] + rest).skip(1) =~= rest);
}

} // verus!
