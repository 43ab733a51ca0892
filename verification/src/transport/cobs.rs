//! COBS encoding of packets, which removes every zero byte so that a zero can
//! delimit frames.

use vstd::prelude::*;

use super::MAX_FRAME_SIZE;

verus! {

/// The COBS decoder's own error.
#[verifier::external_type_specification]
#[verifier::external_body]
pub struct ExDecodeError(darkbio_cobs::DecodeError);

/// The COBS encoder's own error.
#[verifier::external_type_specification]
#[verifier::external_body]
pub struct ExEncodeError(darkbio_cobs::EncodeError);

/// Worst-case size of the COBS encoding of `size` bytes: one marker for every
/// started group of 254 bytes and one more.
pub open spec fn encoded_bound(size: int) -> int {
    size + (size + 253) / 254 + 1
}

/// The worst-case size, or the largest `usize` if that is smaller.
pub open spec fn capped_bound(size: int) -> usize {
    if encoded_bound(size) <= usize::MAX {
        encoded_bound(size) as usize
    } else {
        usize::MAX
    }
}

/// Bytes that `darkbio_cobs::encode` makes of a packet.
pub uninterp spec fn cobs_encoded(packet: Seq<u8>) -> Seq<u8>;

/// Packet that `darkbio_cobs::decode_nonzero` makes of a zero-free frame, or
/// the error it reports.
pub uninterp spec fn cobs_decoded(frame: Seq<u8>) -> Result<Seq<u8>, darkbio_cobs::DecodeError>;

/// Whether a byte sequence is free of zeros, the frame delimiter.
pub open spec fn zero_free(bytes: Seq<u8>) -> bool {
    forall|i: int| 0 <= i < bytes.len() ==> bytes[i] != 0
}

/// Whether a frame body is within the size limit and carries a packet.
pub open spec fn carries(body: Seq<u8>, packet: Seq<u8>) -> bool {
    &&& zero_free(body)
    &&& 1 <= body.len() <= MAX_FRAME_SIZE
    &&& cobs_decoded(body) == Ok::<Seq<u8>, darkbio_cobs::DecodeError>(packet)
}

/// `darkbio_cobs::encode_buffer` computes the worst-case encoded size, without
/// a check for overflow.
pub assume_specification[ darkbio_cobs::encode_buffer ](size: usize) -> (bound: usize)
    requires
        encoded_bound(size as int) <= usize::MAX,
    ensures
        bound == encoded_bound(size as int),
;

/// Worst-case size of the COBS encoding of `size` bytes, or the largest `usize`
/// if that is smaller.
pub fn encode_bound(size: usize) -> (bound: usize)
    ensures
        bound == capped_bound(size as int),
{
    let exact: u128 = size as u128 + (size as u128 + 253) / 254 + 1;
    if exact <= usize::MAX as u128 {
        darkbio_cobs::encode_buffer(size)
    } else {
        usize::MAX
    }
}

/// Encodes a packet with `darkbio_cobs::encode`, which takes an output buffer of
/// the worst-case size and reports how much of it the encoding took. The
/// encoding is never empty, holds no zero, fits the worst-case size, and
/// decodes to the packet again.
#[verifier::external_body]
pub(crate) fn encode(packet: &[u8]) -> (encoded: Vec<u8>)
    requires
        encoded_bound(packet@.len() as int) <= usize::MAX,
    ensures
        encoded@ == cobs_encoded(packet@),
        1 <= encoded@.len() <= encoded_bound(packet@.len() as int),
        zero_free(encoded@),
        (cobs_decoded(encoded@) == Ok::<Seq<u8>, darkbio_cobs::DecodeError>(packet@)),
{
    let mut encoded = vec![0u8; darkbio_cobs::encode_buffer(packet.len())];
    let size = darkbio_cobs::encode(packet, &mut encoded).expect("worst-case buffer");
    encoded.truncate(size);
    encoded
}

/// Whether the first marker of a frame points past its end.
pub open spec fn overruns(frame: Seq<u8>) -> bool {
    frame.len() > 0 && frame[0] > frame.len()
}

/// Decodes a zero-free frame with `darkbio_cobs::decode_nonzero`, given an
/// output buffer of the worst-case size. The packet is shorter than the frame. A
/// frame whose first marker stands for more bytes than follow does not decode.
#[verifier::external_body]
pub(crate) fn decode(frame: &[u8]) -> (decoded: Result<Vec<u8>, darkbio_cobs::DecodeError>)
    requires
        zero_free(frame@),
    ensures
        match decoded {
            Ok(packet) => {
                &&& cobs_decoded(frame@) == Ok::<Seq<u8>, darkbio_cobs::DecodeError>(packet@)
                &&& packet@.len() < frame@.len()
            },
            Err(err) => cobs_decoded(frame@) == Err::<Seq<u8>, darkbio_cobs::DecodeError>(err),
        },
        overruns(frame@) ==> decoded is Err,
{
    let mut packet = vec![0u8; darkbio_cobs::decode_buffer(frame.len())];
    let size = darkbio_cobs::decode_nonzero(frame, &mut packet)?;
    packet.truncate(size);
    Ok(packet)
}

/// The room that an encoding may take is the packet, a marker for each started group of 254
/// bytes and one more, however long the packet is, as far as a machine can count.
pub proof fn law_encoding_needs_room(size: usize, bound: usize)
    requires
        call_ensures(encode_bound, (size,), bound),
    ensures
        size + (size + 253) / 254 + 1 <= usize::MAX ==> bound == size + (size + 253) / 254 + 1,
        size + (size + 253) / 254 + 1 > usize::MAX ==> bound == usize::MAX,
        bound > size || bound == usize::MAX,
{
}

} // verus!
