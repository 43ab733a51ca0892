//! COBS framing of a raw byte stream, a reading half and a writing half.
//! Frames are zero delimited, with any zero in the payload encoded away.
//!
//! The stream is assumed to carry no connection lifecycle, as USB bulk transfers
//! lack it by design. A client may attach, crash or reconnect without the server
//! noticing. Session boundaries have to be signaled in band.
//!
//! Since an empty frame is not valid COBS, it is used to mark a session reset.
//! A client opens a session with two zeros, the first terminating whatever frame
//! may have been interrupted, the second being the reset. A server answers with
//! a single zero whenever it has no session for what it received.
//!
//! A failed send may have put part of its frame on the stream already. The
//! next send, a frame or a signal, starts with an extra delimiter terminating
//! that leftover. A failed flush counts as a failed send, as some transports
//! only report a lost transfer there.

use vstd::prelude::*;
use vstd::slice::{slice_subrange, slice_to_vec};

use super::cobs;
use super::{Error, MAX_FRAME_SIZE};
use crate::bytes::{append, replace};

verus! {

/// Position of the first delimiter, or the length if there is none.
pub open spec fn first_zero(bytes: Seq<u8>) -> int
    decreases bytes.len(),
{
    if bytes.len() == 0 || bytes[0] == 0 {
        0
    } else {
        1 + first_zero(bytes.skip(1))
    }
}

/// The position found is the only one with a zero-free prefix that ends at a
/// zero or at the end.
pub proof fn lemma_first_zero(bytes: Seq<u8>)
    ensures
        0 <= first_zero(bytes) <= bytes.len(),
        cobs::zero_free(bytes.take(first_zero(bytes))),
        first_zero(bytes) < bytes.len() ==> bytes[first_zero(bytes)] == 0,
        forall|i: int|
            0 <= i <= bytes.len() && #[trigger] cobs::zero_free(bytes.take(i)) && (i < bytes.len()
                ==> bytes[i] == 0) ==> i == first_zero(bytes),
    decreases bytes.len(),
{
    if bytes.len() == 0 {
        assert(bytes.take(0) =~= Seq::<u8>::empty());
    } else if bytes[0] == 0 {
        assert(bytes.take(0) =~= Seq::<u8>::empty());
        assert forall|i: int|
            0 <= i <= bytes.len() && #[trigger] cobs::zero_free(bytes.take(i)) && (i < bytes.len()
                ==> bytes[i] == 0) implies i == 0 by {
            if i > 0 {
                assert(bytes.take(i)[0] == 0);
            }
        }
    } else {
        let rest = bytes.skip(1);
        lemma_first_zero(rest);
        let found = first_zero(bytes);
        assert forall|i: int| 0 <= i < found implies bytes.take(found)[i] != 0 by {
            if i > 0 {
                assert(rest.take(found - 1)[i - 1] != 0);
            }
        }
        assert forall|i: int|
            0 <= i <= bytes.len() && #[trigger] cobs::zero_free(bytes.take(i)) && (i < bytes.len()
                ==> bytes[i] == 0) implies i == found by {
            assert(i > 0);
            let front = rest.take(i - 1);
            assert forall|j: int| 0 <= j < front.len() implies front[j] != 0 by {
                assert(bytes.take(i)[j + 1] != 0);
            }
            assert(cobs::zero_free(rest.take(i - 1)));
        }
    }
}

/// Unread input of a reader: the bytes received and not handed out yet, and
/// whether they continue a frame already refused for its size.
pub struct Input {
    pub pending: Seq<u8>,
    pub discarding: bool,
}

/// What a reader finds in its input.
pub enum Item {
    /// A complete frame, without its delimiter.
    Frame(Seq<u8>),
    /// A frame past the size limit, reported as soon as the limit is crossed.
    Oversized,
}

/// Input after throwing away the rest of a refused frame through its delimiter.
pub open spec fn resynced(input: Input) -> Input {
    let found = first_zero(input.pending);
    if !input.discarding {
        input
    } else if found < input.pending.len() {
        Input { pending: input.pending.skip(found + 1), discarding: false }
    } else {
        Input { pending: Seq::empty(), discarding: true }
    }
}

/// First item in the input, if it holds enough to tell.
pub open spec fn next_item(input: Input) -> Option<Item> {
    let input = resynced(input);
    let found = first_zero(input.pending);
    if input.discarding {
        None
    } else if found < input.pending.len() && found <= MAX_FRAME_SIZE {
        Some(Item::Frame(input.pending.take(found)))
    } else if input.pending.len() > MAX_FRAME_SIZE {
        Some(Item::Oversized)
    } else {
        None
    }
}

/// Input left behind the first item, or behind what was thrown away without one.
pub open spec fn after_item(input: Input) -> Input {
    let rest = resynced(input);
    match next_item(input) {
        None => rest,
        Some(Item::Frame(frame)) => Input {
            pending: rest.pending.skip(frame.len() as int + 1),
            discarding: false,
        },
        Some(Item::Oversized) => Input {
            pending: rest.pending.skip(MAX_FRAME_SIZE as int + 1),
            discarding: true,
        },
    }
}

/// Input after more bytes arrived.
pub open spec fn extended(input: Input, bytes: Seq<u8>) -> Input {
    Input { pending: input.pending + bytes, discarding: input.discarding }
}

/// Item handed out by a reader, or the need for more input.
#[derive(Debug)]
pub enum Poll {
    /// A complete frame, without its delimiter.
    Frame(Vec<u8>),
    /// A frame past the size limit; its rest is thrown away as it arrives.
    Oversized,
    /// The input holds no complete item.
    Pending,
}

impl Poll {
    /// The item in terms of the input model.
    pub open spec fn item(self) -> Option<Item> {
        match self {
            Poll::Frame(frame) => Some(Item::Frame(frame@)),
            Poll::Oversized => Some(Item::Oversized),
            Poll::Pending => None,
        }
    }
}

/// Meaning of an item to the protocol.
pub enum Arrival {
    /// An empty frame, the session reset signal.
    Reset,
    /// A decoded packet, which may be empty.
    Packet(Seq<u8>),
    /// A frame that is not valid COBS.
    Undecodable(darkbio_cobs::DecodeError),
    /// A frame past the size limit.
    Oversized,
}

/// Reads an item as the protocol does: an empty frame is a reset, any other
/// frame holds a packet if it decodes.
pub open spec fn arrival(item: Item) -> Arrival {
    match item {
        Item::Frame(frame) => if frame.len() == 0 {
            Arrival::Reset
        } else {
            match cobs::cobs_decoded(frame) {
                Ok(packet) => Arrival::Packet(packet),
                Err(err) => Arrival::Undecodable(err),
            }
        },
        Item::Oversized => Arrival::Oversized,
    }
}

/// Input behind the oversized frames at its front.
pub open spec fn past_oversized(input: Input) -> Input
    decreases input.pending.len(),
{
    if next_item(input) matches Some(Item::Oversized) && after_item(input).pending.len()
        < input.pending.len() {
        past_oversized(after_item(input))
    } else {
        input
    }
}

/// Position of the first occurrence of a byte, by `memchr::memchr`.
pub assume_specification[ memchr::memchr ](needle: u8, haystack: &[u8]) -> (found: Option<usize>)
    ensures
        match found {
            Some(i) => {
                &&& i < haystack@.len()
                &&& haystack@[i as int] == needle
                &&& forall|j: int| 0 <= j < i ==> haystack@[j] != needle
            },
            None => forall|j: int| 0 <= j < haystack@.len() ==> haystack@[j] != needle,
        },
;

/// Reading half of the framer: the bytes received and the frames in them.
pub struct FrameReader {
    buffer: Vec<u8>,  // Received bytes, the front of them already consumed
    offset: usize,  // Start of the unconsumed data, the next frame
    search: usize,  // End of the unconsumed data already scanned for a delimiter
    discard: bool,  // Whether the unconsumed data continues an oversized frame
}

impl View for FrameReader {
    type V = Input;

    closed spec fn view(&self) -> Input {
        Input { pending: self.buffer@.skip(self.offset as int), discarding: self.discard }
    }
}

impl FrameReader {
    /// The scanned part of the input lies within the buffer and is free of
    /// delimiters.
    #[verifier::type_invariant]
    spec fn wf(self) -> bool {
        &&& self.offset <= self.search <= self.buffer@.len()
        &&& cobs::zero_free(self.buffer@.subrange(self.offset as int, self.search as int))
    }

    /// Creates a reader at a frame boundary, without input.
    pub fn new() -> (reader: FrameReader)
        ensures
            reader@ == (Input { pending: Seq::empty(), discarding: false }),
    {
        let reader = FrameReader { buffer: Vec::new(), offset: 0, search: 0, discard: false };
        assert(reader@.pending =~= Seq::<u8>::empty());
        reader
    }

    /// Takes in bytes received from the stream.
    pub fn feed(&mut self, bytes: &[u8])
        ensures
            final(self)@ == extended(old(self)@, bytes@),
    {
        let reader = replace(self, FrameReader::new());
        proof {
            use_type_invariant(&reader);
        }
        let ghost before = reader;
        let FrameReader { mut buffer, offset, search, discard } = reader;
        if offset > 0 {
            buffer = buffer.split_off(offset);
        }
        assert(buffer@ =~= before@.pending);
        append(&mut buffer, bytes);
        let search: usize = search - offset;
        assert(buffer@.subrange(0, search as int) =~= before.buffer@.subrange(
            before.offset as int,
            before.search as int,
        ));
        *self = FrameReader { buffer, offset: 0, search, discard };
        assert(self@.pending =~= before@.pending + bytes@);
    }

    /// Hands out the next frame, or reports an oversized one once its size
    /// crosses the limit. Its remaining bytes are thrown away through their
    /// delimiter, however they arrive. Complete frames remain available after
    /// the stream ended.
    pub fn poll(&mut self) -> (poll: Poll)
        ensures
            poll.item() == next_item(old(self)@),
            final(self)@ == after_item(old(self)@),
    {
        let reader = replace(self, FrameReader::new());
        proof {
            use_type_invariant(&reader);
        }
        let ghost before = reader@;
        let FrameReader { buffer, mut offset, mut search, mut discard } = reader;
        let end: usize = buffer.len();
        if discard {
            let found = find_zero(&buffer, offset, search);
            if found == end {
                proof {
                    assert(resynced(before).pending =~= Seq::<u8>::empty());
                }
                *self = FrameReader { buffer: Vec::new(), offset: 0, search: 0, discard };
                assert(self@.pending =~= Seq::<u8>::empty());
                return Poll::Pending;
            }
            offset = found + 1;
            search = offset;
            discard = false;
            assert(buffer@.skip(offset as int) =~= resynced(before).pending);
        }
        let ghost pending = buffer@.skip(offset as int);
        let found = find_zero(&buffer, offset, search);
        if found < end && found - offset <= MAX_FRAME_SIZE {
            let frame = slice_to_vec(slice_subrange(buffer.as_slice(), offset, found));
            assert(frame@ =~= pending.take(found - offset));
            let next: usize = found + 1;
            assert(buffer@.skip(next as int) =~= pending.skip(found - offset + 1));
            *self = FrameReader { buffer, offset: next, search: next, discard };
            return Poll::Frame(frame);
        }
        if end - offset > MAX_FRAME_SIZE {
            let next: usize = offset + MAX_FRAME_SIZE + 1;
            assert(buffer@.skip(next as int) =~= pending.skip(MAX_FRAME_SIZE as int + 1));
            *self = FrameReader { buffer, offset: next, search: next, discard: true };
            return Poll::Oversized;
        }
        *self = FrameReader { buffer, offset, search: end, discard };
        Poll::Pending
    }

    /// Hands out the next frame within the size limit, if one is complete.
    /// Frames past the limit are skipped without a word.
    pub fn next_frame_blob(&mut self) -> (frame: Option<Vec<u8>>)
        ensures
            final(self)@ == after_item(past_oversized(old(self)@)),
            match frame {
                Some(frame) => next_item(past_oversized(old(self)@)) == Some(Item::Frame(frame@)),
                None => next_item(past_oversized(old(self)@)) is None,
            },
    {
        loop
            invariant
                past_oversized(self@) == past_oversized(old(self)@),
            decreases self@.pending.len(),
        {
            let ghost before = self@;
            match self.poll() {
                Poll::Frame(frame) => return Some(frame),
                Poll::Pending => return None,
                Poll::Oversized => {
                    proof {
                        lemma_item_consumes(before);
                    }
                },
            }
        }
    }

    /// Hands out the next packet, or `Some(Ok(None))` for the empty frame that
    /// signals a session reset. An oversized or undecodable frame is an error.
    /// `None` asks for more input.
    pub fn next_packet(&mut self) -> (packet: Option<Result<Option<Vec<u8>>, Error>>)
        ensures
            final(self)@ == after_item(old(self)@),
            match next_item(old(self)@) {
                None => packet is None,
                Some(item) => packet is Some && delivered(packet->0, arrival(item)),
            },
    {
        proof {
            reveal_item(self@);
        }
        match self.poll() {
            Poll::Pending => None,
            Poll::Oversized => Some(Err(Error::FrameTooLarge(MAX_FRAME_SIZE + 1))),
            Poll::Frame(frame) => Some(decode_frame(&frame)),
        }
    }
}

/// Whether a result reports what arrived.
pub open spec fn delivered(packet: Result<Option<Vec<u8>>, Error>, arrival: Arrival) -> bool {
    match arrival {
        Arrival::Reset => packet matches Ok(None),
        Arrival::Packet(bytes) => packet matches Ok(Some(packet)) && packet@ == bytes,
        Arrival::Undecodable(err) => packet == Err::<Option<Vec<u8>>, Error>(
            Error::FrameDecodingFailed(err),
        ),
        Arrival::Oversized => packet == Err::<Option<Vec<u8>>, Error>(
            Error::FrameTooLarge((MAX_FRAME_SIZE + 1) as usize),
        ),
    }
}

/// The next item is taken and reported, if there is one.
pub open spec fn reads_packet(
    before: Input,
    after: Input,
    packet: Option<Result<Option<Vec<u8>>, Error>>,
) -> bool {
    &&& after == after_item(before)
    &&& match next_item(before) {
        None => packet is None,
        Some(item) => packet matches Some(packet) && delivered(packet, arrival(item)),
    }
}

/// The next frame within the size limit is taken, if there is one, and with it those past
/// the limit in front of it.
pub open spec fn reads_frame(before: Input, after: Input, frame: Option<Vec<u8>>) -> bool {
    &&& after == after_item(past_oversized(before))
    &&& match frame {
        Some(frame) => next_item(past_oversized(before)) == Some(Item::Frame(frame@)),
        None => next_item(past_oversized(before)) is None,
    }
}

/// Frames handed out hold no delimiter.
pub proof fn reveal_item(input: Input)
    ensures
        next_item(input) matches Some(Item::Frame(frame)) ==> cobs::zero_free(frame) && frame.len()
            <= MAX_FRAME_SIZE,
{
    lemma_first_zero(resynced(input).pending);
}

/// A frame whose first marker points past its end arrives as one that does not decode.
pub open spec fn cut_off(item: Option<Item>) -> bool {
    match item {
        Some(Item::Frame(frame)) => cobs::overruns(frame) ==> arrival(Item::Frame(
            frame,
        )) is Undecodable,
        _ => true,
    }
}

/// Decodes a frame into its packet, an empty one into the reset signal.
pub fn decode_frame(frame: &Vec<u8>) -> (packet: Result<Option<Vec<u8>>, Error>)
    requires
        cobs::zero_free(frame@),
    ensures
        delivered(packet, arrival(Item::Frame(frame@))),
        cut_off(Some(Item::Frame(frame@))),
        packet matches Ok(Some(packet)) ==> packet@.len() < frame@.len(),
{
    if frame.len() == 0 {
        return Ok(None);
    }
    match cobs::decode(frame.as_slice()) {
        Ok(packet) => Ok(Some(packet)),
        Err(err) => Err(Error::FrameDecodingFailed(err)),
    }
}

/// Bytes that put a frame on the stream: its body and the delimiter, behind
/// another delimiter if earlier output may have left a frame unterminated.
pub open spec fn framed(resync: bool, body: Seq<u8>) -> Seq<u8> {
    if resync {
        seq![0u8] + body + seq![0u8]
    } else {
        body + seq![0u8]
    }
}

/// Writing half of the framer. Its methods hand out the bytes to write and
/// flush, to be followed by `complete` with the outcome.
pub struct FrameWriter {
    /// Whether output was started and not completed, possibly leaving a frame
    /// unterminated.
    pub resync: bool,
}

impl FrameWriter {
    /// Creates a writer on a stream without output.
    pub fn new() -> (writer: FrameWriter)
        ensures
            !writer.resync,
    {
        FrameWriter { resync: false }
    }

    /// Signals a session reset with two frame delimiters, the first one
    /// terminating any interrupted frame, the second forming the empty reset
    /// frame. The first covers a frame a previous client may have left behind,
    /// so a reset resyncs the stream by itself.
    pub fn send_reset(&mut self) -> (output: Vec<u8>)
        ensures
            output@ == seq![0u8, 0u8],
            final(self).resync,
    {
        self.resync = true;
        vec![0u8, 0u8]
    }

    /// Signals a dropped session with a single frame delimiter, forming an
    /// empty frame. After a failed send it goes out behind the delimiter
    /// terminating what that send left behind, so it is not swallowed as one.
    pub fn send_dropped(&mut self) -> (output: Vec<u8>)
        ensures
            output@ == framed(old(self).resync, Seq::empty()),
            final(self).resync,
    {
        self.send_frame_blob(Vec::new().as_slice())
    }

    /// COBS encodes a packet into a delimited frame. Packets whose encoding
    /// could exceed the frame limit are refused, leaving the stream alone.
    pub fn send_packet(&mut self, packet: &[u8]) -> (output: Result<Vec<u8>, Error>)
        ensures
            match output {
                Ok(output) => {
                    &&& cobs::encoded_bound(packet@.len() as int) <= MAX_FRAME_SIZE
                    &&& output@ == framed(old(self).resync, cobs::cobs_encoded(packet@))
                    &&& cobs::carries(cobs::cobs_encoded(packet@), packet@)
                    &&& final(self).resync
                },
                Err(err) => {
                    &&& cobs::encoded_bound(packet@.len() as int) > MAX_FRAME_SIZE
                    &&& err == Error::FrameTooLarge(cobs::capped_bound(packet@.len() as int))
                    &&& *final(self) == *old(self)
                },
            },
    {
        let bound = cobs::encode_bound(packet.len());
        if bound > MAX_FRAME_SIZE {
            return Err(Error::FrameTooLarge(bound));
        }
        let body = cobs::encode(packet);
        Ok(self.send_frame_blob(body.as_slice()))
    }

    /// Sends a raw frame body.
    pub fn send_frame_blob(&mut self, body: &[u8]) -> (output: Vec<u8>)
        ensures
            output@ == framed(old(self).resync, body@),
            final(self).resync,
    {
        let mut output: Vec<u8> = Vec::new();
        if self.resync {
            output.push(0);
        }
        append(&mut output, body);
        output.push(0);
        assert(output@ =~= framed(old(self).resync, body@));
        self.resync = true;
        output
    }

    /// Reports whether the output handed out last was written and flushed whole.
    pub fn complete(&mut self, written: bool)
        ensures
            final(self).resync == !written,
    {
        self.resync = !written;
    }
}

/// Position of the first delimiter at or behind `offset`, or the buffer's length.
/// Nothing before `search` is looked at, having been scanned before.
fn find_zero(buffer: &Vec<u8>, offset: usize, search: usize) -> (found: usize)
    requires
        offset <= search <= buffer@.len(),
        cobs::zero_free(buffer@.subrange(offset as int, search as int)),
    ensures
        offset <= found <= buffer@.len(),
        found - offset == first_zero(buffer@.skip(offset as int)),
        cobs::zero_free(buffer@.subrange(offset as int, found as int)),
{
    let tail = slice_subrange(buffer.as_slice(), search, buffer.len());
    let found: usize = match memchr::memchr(0, tail) {
        Some(i) => search + i,
        None => buffer.len(),
    };
    proof {
        let pending = buffer@.skip(offset as int);
        let front = pending.take(found - offset);
        assert forall|i: int| 0 <= i < front.len() implies front[i] != 0 by {
            if i < search - offset {
                assert(buffer@.subrange(offset as int, search as int)[i] != 0);
            } else {
                assert(tail@[i - (search - offset)] != 0);
            }
        }
        assert(buffer@.subrange(offset as int, found as int) =~= front);
        if found < buffer.len() {
            assert(tail@[found - search] == 0);
            assert(pending[found - offset] == 0);
        }
        lemma_first_zero(pending);
        assert(cobs::zero_free(pending.take(found - offset)));
    }
    found
}

// What holds of framing as a whole: the frames read depend on the bytes and
// not on how they were cut up, and output after failed output is read back as
// it was meant.

/// All items in the input, in order.
pub open spec fn items(input: Input) -> Seq<Item>
    decreases input.pending.len(),
{
    match next_item(input) {
        Some(item) => if after_item(input).pending.len() < input.pending.len() {
            seq![item] + items(after_item(input))
        } else {
            seq![item]
        },
        None => Seq::empty(),
    }
}

/// Input left behind all items.
pub open spec fn drained(input: Input) -> Input
    decreases input.pending.len(),
{
    if next_item(input) is Some && after_item(input).pending.len() < input.pending.len() {
        drained(after_item(input))
    } else {
        after_item(input)
    }
}

/// Input of a reader that stands between two frames.
pub open spec fn boundary() -> Input {
    Input { pending: Seq::empty(), discarding: false }
}

/// Every item consumes input, and its absence adds none.
pub proof fn lemma_item_consumes(input: Input)
    ensures
        after_item(input).pending.len() <= input.pending.len(),
        next_item(input) is Some ==> after_item(input).pending.len() < input.pending.len(),
{
    lemma_first_zero(input.pending);
    lemma_first_zero(resynced(input).pending);
}

/// Skipping oversized frames only shortens the input.
proof fn lemma_skipping_shortens(input: Input)
    ensures
        past_oversized(input).pending.len() <= input.pending.len(),
    decreases input.pending.len(),
{
    if next_item(input) == Some(Item::Oversized) && after_item(input).pending.len()
        < input.pending.len() {
        lemma_skipping_shortens(after_item(input));
    }
}

/// Taking an item off the input, past oversized ones, shortens it.
pub proof fn lemma_taking_shortens(input: Input)
    ensures
        next_item(past_oversized(input)) is Some ==> after_item(
            past_oversized(input),
        ).pending.len() < input.pending.len(),
{
    lemma_skipping_shortens(input);
    if next_item(past_oversized(input)) is Some {
        lemma_item_consumes(past_oversized(input));
    }
}

/// The first delimiter of two pieces is that of the first piece, or that of the
/// second if the first has none.
pub proof fn lemma_first_zero_concat(front: Seq<u8>, back: Seq<u8>)
    ensures
        first_zero(front) < front.len() ==> first_zero(front + back) == first_zero(front),
        first_zero(front) == front.len() ==> first_zero(front + back) == front.len() + first_zero(
            back,
        ),
{
    let whole = front + back;
    lemma_first_zero(front);
    lemma_first_zero(back);
    lemma_first_zero(whole);
    let found = first_zero(front);
    if found < front.len() {
        assert(whole.take(found) =~= front.take(found));
        assert(cobs::zero_free(whole.take(found)));
    } else {
        let at = front.len() + first_zero(back);
        let taken = whole.take(at);
        assert forall|i: int| 0 <= i < taken.len() implies taken[i] != 0 by {
            if i < front.len() {
                assert(front.take(found)[i] != 0);
            } else {
                assert(back.take(first_zero(back))[i - front.len()] != 0);
            }
        }
        assert(cobs::zero_free(whole.take(at)));
    }
}

/// An item already complete stays the same when more bytes arrive behind it.
pub proof fn lemma_item_stays(input: Input, bytes: Seq<u8>)
    requires
        next_item(input) is Some,
    ensures
        next_item(extended(input, bytes)) == next_item(input),
        after_item(extended(input, bytes)) == extended(after_item(input), bytes),
{
    let longer = extended(input, bytes);
    lemma_first_zero(input.pending);
    lemma_first_zero_concat(input.pending, bytes);
    if input.discarding {
        let found = first_zero(input.pending);
        assert(longer.pending.skip(found + 1) =~= input.pending.skip(found + 1) + bytes);
    }
    lemma_first_zero(bytes);
    let rest = resynced(input).pending;
    assert(longer.pending == input.pending + bytes);
    assert(resynced(longer) == extended(resynced(input), bytes));
    lemma_first_zero(rest);
    lemma_first_zero_concat(rest, bytes);
    lemma_first_zero(rest + bytes);
    let found = first_zero(rest);
    if found < rest.len() && found <= MAX_FRAME_SIZE {
        assert((rest + bytes).take(found) =~= rest.take(found));
        assert((rest + bytes).skip(found + 1) =~= rest.skip(found + 1) + bytes);
    } else {
        let size = MAX_FRAME_SIZE as int + 1;
        assert((rest + bytes).skip(size) =~= rest.skip(size) + bytes);
    }
}

/// Throwing refused bytes away early makes no difference to what follows.
pub proof fn lemma_rest_continues(input: Input, bytes: Seq<u8>)
    requires
        next_item(input) is None,
    ensures
        next_item(extended(after_item(input), bytes)) == next_item(extended(input, bytes)),
        after_item(extended(after_item(input), bytes)) == after_item(extended(input, bytes)),
{
    lemma_first_zero(input.pending);
    lemma_first_zero_concat(input.pending, bytes);
    lemma_first_zero(bytes);
    if input.discarding {
        let found = first_zero(input.pending);
        let whole = input.pending + bytes;
        if found < input.pending.len() {
            assert(whole.skip(found + 1) =~= input.pending.skip(found + 1) + bytes);
        } else {
            assert(Seq::<u8>::empty() + bytes =~= bytes);
            if first_zero(bytes) < bytes.len() {
                assert(whole.skip(found + first_zero(bytes) + 1) =~= bytes.skip(
                    first_zero(bytes) + 1,
                ));
            }
        }
        assert(resynced(extended(after_item(input), bytes)) == resynced(extended(input, bytes)));
    }
}

/// Skipping oversized frames, and throwing refused bytes away, before more bytes arrive
/// makes no difference to the frame found behind them.
pub proof fn lemma_skipping_continues(input: Input, bytes: Seq<u8>)
    ensures
        ({
            let rest = past_oversized(input);
            let longer = past_oversized(extended(input, bytes));
            let shorter = past_oversized(extended(after_item(rest), bytes));
            if next_item(rest) is Some {
                &&& next_item(longer) == next_item(rest)
                &&& after_item(longer) == extended(after_item(rest), bytes)
            } else {
                &&& next_item(shorter) == next_item(longer)
                &&& after_item(shorter) == after_item(longer)
            }
        }),
    decreases input.pending.len(),
{
    let longer = extended(input, bytes);
    if next_item(input) is Some {
        lemma_item_stays(input, bytes);
        lemma_item_consumes(input);
        lemma_item_consumes(longer);
        if next_item(input) == Some(Item::Oversized) {
            lemma_skipping_continues(after_item(input), bytes);
        }
    } else {
        let shorter = extended(after_item(input), bytes);
        lemma_rest_continues(input, bytes);
        lemma_item_consumes(shorter);
        lemma_item_consumes(longer);
    }
}

/// All bytes of a number of reads.
pub open spec fn joined(chunks: Seq<Seq<u8>>) -> Seq<u8>
    decreases chunks.len(),
{
    if chunks.len() == 0 {
        Seq::empty()
    } else {
        joined(chunks.drop_last()) + chunks.last()
    }
}

/// What was read up to now is what was read before the latest bytes.
pub proof fn lemma_joined(chunks: Seq<Seq<u8>>, bytes: Seq<u8>)
    ensures
        joined(chunks.push(bytes)) == joined(chunks) + bytes,
        chunks.take(chunks.len() as int) == chunks,
        forall|i: int|
            0 <= i <= chunks.len() ==> #[trigger] chunks.push(bytes).take(i) == chunks.take(i),
{
    assert(chunks.push(bytes).drop_last() =~= chunks);
    assert(chunks.take(chunks.len() as int) =~= chunks);
    assert forall|i: int| 0 <= i <= chunks.len() implies #[trigger] chunks.push(bytes).take(i)
        == chunks.take(i) by {
        assert(chunks.push(bytes).take(i) =~= chunks.take(i));
    }
}

/// Bytes that arrive one after the other arrive together.
pub proof fn lemma_extends(input: Input, first: Seq<u8>, second: Seq<u8>)
    ensures
        extended(extended(input, first), second) == extended(
            input,
            first + second,
        ),
        extended(input, Seq::empty()) == input,
{
    assert(input.pending + first + second =~= input.pending + (first + second));
    assert(input.pending + Seq::<u8>::empty() =~= input.pending);
}

/// The same items come out of equal continuations.
pub proof fn lemma_items_agree(left: Input, right: Input)
    requires
        next_item(left) == next_item(right),
        after_item(left) == after_item(right),
    ensures
        items(left) == items(right),
        drained(left) == drained(right),
{
    if next_item(left) is Some {
        lemma_item_consumes(left);
        lemma_item_consumes(right);
    }
}

/// The frames read from a stream depend on its bytes alone. Taking the items out
/// before more bytes arrive gives the same items, and leaves the same input, as
/// waiting for all bytes first.
pub proof fn law_chunking(input: Input, bytes: Seq<u8>)
    ensures
        items(extended(input, bytes)) == items(input) + items(extended(drained(input), bytes)),
        drained(extended(input, bytes)) == drained(extended(drained(input), bytes)),
    decreases input.pending.len(),
{
    let longer = extended(input, bytes);
    if next_item(input) is Some {
        lemma_item_consumes(input);
        lemma_item_stays(input, bytes);
        lemma_item_consumes(longer);
        law_chunking(after_item(input), bytes);
        assert(items(longer) =~= items(input) + items(extended(drained(input), bytes)));
    } else {
        lemma_rest_continues(input, bytes);
        lemma_items_agree(extended(after_item(input), bytes), longer);
        assert(items(longer) =~= items(input) + items(extended(drained(input), bytes)));
    }
}

/// Pieces of a stream of bytes that end at a delimiter, delimiters stripped. What
/// follows the last delimiter is none.
pub open spec fn pieces(bytes: Seq<u8>) -> Seq<Seq<u8>>
    decreases bytes.len(),
{
    let found = first_zero(bytes);
    if 0 <= found < bytes.len() {
        seq![bytes.take(found)] + pieces(bytes.skip(found + 1))
    } else {
        Seq::empty()
    }
}

/// Behind a delimiter the pieces start anew.
pub proof fn lemma_pieces(front: Seq<u8>, back: Seq<u8>)
    requires
        front.len() == 0 || front.last() == 0,
    ensures
        pieces(front + back) == pieces(front) + pieces(back),
    decreases front.len(),
{
    lemma_first_zero(front);
    if front.len() == 0 {
        assert(front + back =~= back);
        assert(pieces(front) + pieces(back) =~= pieces(back));
    } else {
        let found = first_zero(front);
        if found == front.len() {
            assert(front.take(found)[found - 1] != 0);
        }
        let rest = front.skip(found + 1);
        lemma_first_zero_concat(front, back);
        lemma_pieces(rest, back);
        assert((front + back).take(found) =~= front.take(found));
        assert((front + back).skip(found + 1) =~= rest + back);
        assert(pieces(front + back) =~= pieces(front) + pieces(back));
    }
}

/// A zero-free body and its delimiter are one piece.
pub proof fn lemma_piece(body: Seq<u8>)
    requires
        cobs::zero_free(body),
    ensures
        pieces(body + seq![0u8]) == seq![body],
{
    let bytes = body + seq![0u8];
    lemma_first_zero(bytes);
    lemma_first_zero(Seq::<u8>::empty());
    assert(bytes.take(body.len() as int) =~= body);
    assert(cobs::zero_free(bytes.take(body.len() as int)));
    assert(bytes.skip(body.len() as int + 1) =~= Seq::<u8>::empty());
    assert(pieces(Seq::<u8>::empty()) =~= Seq::<Seq<u8>>::empty());
    assert(pieces(bytes) =~= seq![body]);
}

/// The pieces that are within the size limit.
pub open spec fn sized(pieces: Seq<Seq<u8>>) -> Seq<Seq<u8>>
    decreases pieces.len(),
{
    if pieces.len() == 0 {
        Seq::empty()
    } else if pieces[0].len() <= MAX_FRAME_SIZE {
        seq![pieces[0]] + sized(pieces.skip(1))
    } else {
        sized(pieces.skip(1))
    }
}

/// The frames among items.
pub open spec fn frames(items: Seq<Item>) -> Seq<Seq<u8>>
    decreases items.len(),
{
    if items.len() == 0 {
        Seq::empty()
    } else {
        match items[0] {
            Item::Frame(frame) => seq![frame] + frames(items.skip(1)),
            Item::Oversized => frames(items.skip(1)),
        }
    }
}

/// The frames read from a stream are exactly the pieces of its bytes that end at a
/// delimiter and are within the size limit, in order, empty ones among them. Longer
/// pieces and an unterminated tail are never handed out.
pub proof fn law_frames_are_pieces(bytes: Seq<u8>)
    ensures
        frames(items(extended(boundary(), bytes))) == sized(pieces(bytes)),
    decreases bytes.len(),
{
    let input = extended(boundary(), bytes);
    assert(input.pending =~= bytes);
    lemma_first_zero(bytes);
    lemma_item_consumes(input);
    let found = first_zero(bytes);
    let after = after_item(input);
    if found < bytes.len() {
        let rest = bytes.skip(found + 1);
        law_frames_are_pieces(rest);
        assert(extended(boundary(), rest).pending =~= rest);
        let cut = seq![bytes.take(found)] + pieces(rest);
        assert(pieces(bytes) == cut);
        assert(cut.skip(1) =~= pieces(rest));
        if found <= MAX_FRAME_SIZE {
            let read = seq![Item::Frame(bytes.take(found))] + items(after);
            assert(after == extended(boundary(), rest));
            assert(items(input) == read);
            assert(read.skip(1) =~= items(after));
        } else {
            lemma_discards(bytes.skip(MAX_FRAME_SIZE as int + 1), bytes);
            let read = seq![Item::Oversized] + items(after);
            assert(items(input) == read);
            assert(read.skip(1) =~= items(after));
            assert(frames(items(input)) == frames(items(after)));
            assert(sized(cut) == sized(pieces(rest)));
        }
    } else if bytes.len() > MAX_FRAME_SIZE {
        lemma_discards(bytes.skip(MAX_FRAME_SIZE as int + 1), bytes);
        let read = seq![Item::Oversized] + items(after);
        assert(items(input) == read);
        assert(read.skip(1) =~= items(after));
        assert(frames(items(input)) == frames(items(after)));
    }
}

/// The rest of a refused frame is thrown away through its delimiter.
proof fn lemma_discards(rest: Seq<u8>, bytes: Seq<u8>)
    requires
        bytes.len() > MAX_FRAME_SIZE,
        first_zero(bytes) > MAX_FRAME_SIZE,
        rest == bytes.skip(MAX_FRAME_SIZE as int + 1),
    ensures
        ({
            let input = Input { pending: rest, discarding: true };
            let found = first_zero(bytes);
            if found < bytes.len() {
                items(input) == items(extended(boundary(), bytes.skip(found + 1)))
            } else {
                items(input) == Seq::<Item>::empty()
            }
        }),
{
    let size = MAX_FRAME_SIZE as int + 1;
    let input = Input { pending: rest, discarding: true };
    let front = bytes.take(size);
    lemma_first_zero(bytes);
    lemma_first_zero(front);
    lemma_first_zero(rest);
    assert(bytes =~= front + rest);
    assert forall|i: int| 0 <= i < front.len() implies front[i] != 0 by {
        assert(bytes.take(first_zero(bytes))[i] != 0);
    }
    assert(front.take(front.len() as int) =~= front);
    assert(cobs::zero_free(front.take(front.len() as int)));
    lemma_first_zero_concat(front, rest);
    let found = first_zero(bytes);
    if found < bytes.len() {
        let next = extended(boundary(), bytes.skip(found + 1));
        assert(rest.skip(first_zero(rest) + 1) =~= bytes.skip(found + 1));
        assert(next.pending =~= bytes.skip(found + 1));
        assert(resynced(input) == next);
        lemma_items_agree(input, next);
    }
}

/// A delimiter brings any input to a frame boundary.
pub proof fn lemma_delimiter_resyncs(input: Input)
    ensures
        drained(extended(input, seq![0u8])) == boundary(),
    decreases input.pending.len(),
{
    let zero = seq![0u8];
    let longer = extended(input, zero);
    if next_item(input) is Some {
        lemma_item_consumes(input);
        lemma_item_stays(input, zero);
        lemma_item_consumes(longer);
        lemma_delimiter_resyncs(after_item(input));
    } else {
        lemma_first_zero(input.pending);
        lemma_first_zero_concat(input.pending, zero);
        lemma_first_zero(zero);
        assert(zero.take(0) =~= Seq::<u8>::empty());
        assert(cobs::zero_free(zero.take(0)));
        let rest = resynced(input);
        lemma_first_zero(rest.pending);
        lemma_first_zero_concat(rest.pending, zero);
        lemma_rest_continues(input, zero);
        lemma_items_agree(extended(rest, zero), longer);
        let next = extended(rest, zero);
        if rest.discarding {
            assert(next.pending =~= zero);
            assert(zero.skip(1) =~= Seq::<u8>::empty());
            assert(resynced(next) == boundary());
            lemma_first_zero(Seq::<u8>::empty());
            assert(next_item(next) is None);
        } else {
            let size = rest.pending.len() as int;
            assert(next.pending.take(size) =~= rest.pending);
            assert(next.pending.skip(size + 1) =~= Seq::<u8>::empty());
            assert(next_item(next) is Some);
            lemma_item_consumes(next);
            assert(after_item(next) == boundary());
            lemma_first_zero(Seq::<u8>::empty());
            assert(next_item(boundary()) is None);
            assert(drained(boundary()) == boundary());
        }
    }
}

/// At a boundary, a frame body and its delimiter are read back as one frame.
pub proof fn law_frame_reads_back(body: Seq<u8>)
    requires
        cobs::zero_free(body),
        body.len() <= MAX_FRAME_SIZE,
    ensures
        next_item(extended(boundary(), framed(false, body))) == Some(Item::Frame(body)),
        after_item(extended(boundary(), framed(false, body))) == boundary(),
        items(extended(boundary(), framed(false, body))) == seq![Item::Frame(body)],
        drained(extended(boundary(), framed(false, body))) == boundary(),
{
    let input = extended(boundary(), framed(false, body));
    let zero = seq![0u8];
    assert(input.pending =~= body + zero);
    lemma_first_zero(input.pending);
    assert(input.pending.take(body.len() as int) =~= body);
    assert(cobs::zero_free(input.pending.take(body.len() as int)));
    assert(next_item(input) == Some(Item::Frame(body)));
    lemma_item_consumes(input);
    assert(input.pending.skip(body.len() as int + 1) =~= Seq::<u8>::empty());
    assert(after_item(input) == boundary());
    lemma_first_zero(Seq::<u8>::empty());
    assert(next_item(boundary()) is None);
    reveal_with_fuel(items, 2);
    reveal_with_fuel(drained, 2);
    assert(items(input) =~= seq![Item::Frame(body)]);
}

/// At a boundary, a frame body and its delimiter are read first, whatever follows them.
pub proof fn law_frame_reads_first(body: Seq<u8>, later: Seq<u8>)
    requires
        cobs::zero_free(body),
        body.len() <= MAX_FRAME_SIZE,
    ensures
        ({
            let input = extended(boundary(), framed(false, body) + later);
            &&& past_oversized(input) == input
            &&& next_item(input) == Some(Item::Frame(body))
            &&& after_item(input) == extended(boundary(), later)
        }),
{
    let input = extended(boundary(), framed(false, body) + later);
    assert(input.pending =~= body + seq![0u8] + later);
    lemma_first_zero(input.pending);
    assert(input.pending.take(body.len() as int) =~= body);
    assert(cobs::zero_free(input.pending.take(body.len() as int)));
    assert(input.pending.skip(body.len() as int + 1) =~= later);
    assert(extended(boundary(), later).pending =~= later);
}

/// Output that follows failed output is read back as its own frame, whatever
/// the failed one left on the stream and whatever the reader held before.
pub proof fn law_resync(input: Input, body: Seq<u8>)
    requires
        cobs::zero_free(body),
        body.len() <= MAX_FRAME_SIZE,
    ensures
        items(extended(input, framed(true, body))).last() == Item::Frame(body),
        items(extended(input, framed(true, body))).len() >= 1,
        drained(extended(input, framed(true, body))) == boundary(),
{
    let zero = seq![0u8];
    let rest = framed(false, body);
    let first = extended(input, zero);
    assert(framed(true, body) =~= zero + rest);
    assert(input.pending + framed(true, body) =~= input.pending + zero + rest);
    assert(extended(input, framed(true, body)) == extended(first, rest));
    lemma_delimiter_resyncs(input);
    law_chunking(first, rest);
    law_frame_reads_back(body);
}

/// A packet sent is the packet received, whatever failed output left on the
/// stream before it.
pub proof fn law_packet_reads_back(input: Input, resync: bool, body: Seq<u8>, packet: Seq<u8>)
    requires
        cobs::carries(body, packet),
        resync || input == boundary(),
    ensures
        items(extended(input, framed(resync, body))).len() >= 1,
        arrival(items(extended(input, framed(resync, body))).last()) == Arrival::Packet(packet),
        drained(extended(input, framed(resync, body))) == boundary(),
{
    if resync {
        law_resync(input, body);
    } else {
        law_frame_reads_back(body);
    }
}

/// A session reset is read back as a reset, whatever an interrupted transfer
/// left on the stream before it.
pub proof fn law_reset_reads_back(input: Input)
    ensures
        items(extended(input, seq![0u8, 0u8])).len() >= 1,
        arrival(items(extended(input, seq![0u8, 0u8])).last()) == Arrival::Reset,
        drained(extended(input, seq![0u8, 0u8])) == boundary(),
{
    law_resync(input, Seq::empty());
    assert(framed(true, Seq::empty()) =~= seq![0u8, 0u8]);
}

/// What follows the last delimiter.
pub open spec fn tail(bytes: Seq<u8>) -> Seq<u8>
    decreases bytes.len(),
{
    let found = first_zero(bytes);
    if 0 <= found < bytes.len() {
        tail(bytes.skip(found + 1))
    } else {
        bytes
    }
}

/// Every piece of a stream that ends at a delimiter is one item: a frame if it is within
/// the size limit, and else a report of its size. So is a tail that is past the limit
/// already. Nothing is reported twice, and nothing else is.
pub proof fn law_items_are_pieces(bytes: Seq<u8>)
    ensures
        ({
            let read = items(extended(boundary(), bytes));
            let cut = pieces(bytes);
            &&& read.len() == cut.len() + (if tail(bytes).len() > MAX_FRAME_SIZE {
                1int
            } else {
                0int
            })
            &&& forall|i: int|
                0 <= i < cut.len() ==> #[trigger] read[i] == (if cut[i].len() <= MAX_FRAME_SIZE {
                    Item::Frame(cut[i])
                } else {
                    Item::Oversized
                })
            &&& tail(bytes).len() > MAX_FRAME_SIZE ==> read.last() == Item::Oversized
        }),
    decreases bytes.len(),
{
    let input = extended(boundary(), bytes);
    assert(input.pending =~= bytes);
    lemma_first_zero(bytes);
    lemma_item_consumes(input);
    let found = first_zero(bytes);
    let after = after_item(input);
    let read = items(input);
    if found < bytes.len() {
        let rest = bytes.skip(found + 1);
        law_items_are_pieces(rest);
        assert(extended(boundary(), rest).pending =~= rest);
        let cut = seq![bytes.take(found)] + pieces(rest);
        assert(pieces(bytes) == cut);
        let first = if found <= MAX_FRAME_SIZE {
            Item::Frame(bytes.take(found))
        } else {
            Item::Oversized
        };
        if found <= MAX_FRAME_SIZE {
            assert(after == extended(boundary(), rest));
        } else {
            lemma_discards(bytes.skip(MAX_FRAME_SIZE as int + 1), bytes);
        }
        let others = items(extended(boundary(), rest));
        assert(items(after) == others);
        assert(read == seq![first] + others);
        assert forall|i: int| 0 <= i < cut.len() implies #[trigger] read[i] == (if cut[i].len()
            <= MAX_FRAME_SIZE {
            Item::Frame(cut[i])
        } else {
            Item::Oversized
        }) by {
            if i > 0 {
                assert(cut[i] == pieces(rest)[i - 1]);
                assert(read[i] == others[i - 1]);
            }
        }
        if tail(bytes).len() > MAX_FRAME_SIZE {
            assert(read.last() == others.last());
        }
    } else if bytes.len() > MAX_FRAME_SIZE {
        lemma_discards(bytes.skip(MAX_FRAME_SIZE as int + 1), bytes);
        assert(items(after) == Seq::<Item>::empty());
        assert(read =~= seq![Item::Oversized]);
    } else {
        assert(read =~= Seq::<Item>::empty());
    }
}

/// What is reported of a frame is what it holds: an empty one is a reset, one that decodes
/// is its packet, and the others are errors that say which.
pub proof fn law_delivery_is_exact(packet: Result<Option<Vec<u8>>, Error>, item: Item)
    requires
        delivered(packet, arrival(item)),
    ensures
        match item {
            Item::Oversized => packet matches Err(Error::FrameTooLarge(size)) && size
                == 2_097_153,
            Item::Frame(frame) => if frame.len() == 0 {
                packet matches Ok(None)
            } else {
                match cobs::cobs_decoded(frame) {
                    Ok(bytes) => packet matches Ok(Some(packet)) && packet@ == bytes,
                    Err(err) => packet matches Err(Error::FrameDecodingFailed(error)) && error
                        == err,
                }
            },
        },
{
}

/// The frame handed out with oversized ones skipped is the first of the stream that is
/// within the size limit, and none is handed out only if there is none.
pub proof fn law_skipping_keeps_frames(input: Input)
    ensures
        match next_item(past_oversized(input)) {
            Some(Item::Frame(frame)) => {
                &&& frames(items(input)).len() > 0
                &&& frames(items(input))[0] == frame
                &&& frames(items(after_item(past_oversized(input)))) == frames(items(input)).skip(
                    1,
                )
            },
            Some(Item::Oversized) => false,
            None => frames(items(input)).len() == 0,
        },
    decreases input.pending.len(),
{
    if let Some(item) = next_item(input) {
        lemma_item_consumes(input);
        let read = seq![item] + items(after_item(input));
        assert(items(input) == read);
        assert(read.skip(1) =~= items(after_item(input)));
        match item {
            Item::Oversized => {
                law_skipping_keeps_frames(after_item(input));
            },
            Item::Frame(frame) => {
                let others = frames(items(after_item(input)));
                assert((seq![frame] + others).skip(1) =~= others);
            },
        }
    }
}

/// Pieces with a delimiter behind each, one after the other.
pub open spec fn delimited(pieces: Seq<Seq<u8>>) -> Seq<u8>
    decreases pieces.len(),
{
    if pieces.len() == 0 {
        Seq::empty()
    } else {
        pieces[0] + seq![0u8] + delimited(pieces.skip(1))
    }
}

/// The pieces of a stream are all of it: with their delimiters, and with what follows the
/// last one, they are the stream again. None of them holds a delimiter.
pub proof fn law_pieces_rejoin(bytes: Seq<u8>)
    ensures
        delimited(pieces(bytes)) + tail(bytes) == bytes,
        forall|i: int| 0 <= i < pieces(bytes).len() ==> cobs::zero_free(#[trigger] pieces(bytes)[i]),
        cobs::zero_free(tail(bytes)),
    decreases bytes.len(),
{
    lemma_first_zero(bytes);
    let found = first_zero(bytes);
    if found < bytes.len() {
        let rest = bytes.skip(found + 1);
        law_pieces_rejoin(rest);
        let cut = seq![bytes.take(found)] + pieces(rest);
        assert(pieces(bytes) == cut);
        assert(cut.skip(1) =~= pieces(rest));
        assert(bytes =~= bytes.take(found) + seq![0u8] + rest);
        assert(delimited(cut) + tail(rest) =~= bytes.take(found) + seq![0u8] + (delimited(
            pieces(rest),
        ) + tail(rest)));
        assert forall|i: int| 0 <= i < cut.len() implies cobs::zero_free(#[trigger] cut[i]) by {
            if i > 0 {
                assert(cut[i] == pieces(rest)[i - 1]);
            }
        }
    } else {
        assert(delimited(pieces(bytes)) + tail(bytes) =~= bytes);
        assert(bytes.take(found) =~= bytes);
    }
}

/// Packets are read in the order of the stream: each read takes the first item, leaves the
/// others, and reports what it took.
pub proof fn law_packets_in_order(
    before: Input,
    after: Input,
    packet: Option<Result<Option<Vec<u8>>, Error>>,
)
    requires
        reads_packet(before, after, packet),
    ensures
        packet is None <==> items(before).len() == 0,
        packet matches Some(packet) ==> {
            &&& items(after) == items(before).skip(1)
            &&& match items(before)[0] {
                Item::Oversized => packet is Err,
                Item::Frame(frame) => if frame.len() == 0 {
                    packet matches Ok(None)
                } else {
                    match cobs::cobs_decoded(frame) {
                        Ok(bytes) => packet matches Ok(Some(packet)) && packet@ == bytes,
                        Err(err) => packet matches Err(Error::FrameDecodingFailed(error))
                            && error == err,
                    }
                },
            }
        },
{
    lemma_item_consumes(before);
    if let Some(item) = next_item(before) {
        let rest = items(after_item(before));
        assert((seq![item] + rest).skip(1) =~= rest);
    }
}

/// Frames are read in the order of the stream: each read takes the first one within the size
/// limit and leaves those behind it, whole.
pub proof fn law_frames_in_order(before: Input, after: Input, frame: Option<Vec<u8>>)
    requires
        reads_frame(before, after, frame),
    ensures
        frame is None <==> frames(items(before)).len() == 0,
        frame matches Some(frame) ==> {
            &&& frame@ == frames(items(before))[0]
            &&& frames(items(after)) == frames(items(before)).skip(1)
        },
{
    law_skipping_keeps_frames(before);
}

} // verus!
