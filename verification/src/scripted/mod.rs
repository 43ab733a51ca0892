//! Scripted peers driving one real side of the wire through arbitrary frame
//! sequences. A script decides what the side under test reads next. A model of the
//! protocol's state machine predicts the reaction to each frame, and a run stops
//! at the first divergence between the two.

use darkbio_crypto::cwt::claims::{self, eat};
use darkbio_crypto::xdsa::{PublicKey as VerifyingKey, SecretKey as SigningKey};
use darkbio_crypto::cwt;
use darkbio_trust::cloud::SignerClaims;
use darkbio_trust::device::HardwareClaims;
use darkbio_trust::CRYPTO_DOMAIN_DEVICE_ATTESTATION;
use vstd::bytes::{u64_from_le_bytes, u64_to_le_bytes};
use vstd::prelude::*;
use vstd::slice::{slice_subrange, slice_to_vec};

use crate::bytes::append;
use crate::transport::attestation;
use crate::transport::attestation::Attestation;
use crate::transport::cobs;
use crate::transport::envelope;
use crate::transport::framing;
use crate::transport::io::ErrorKind;
use crate::transport::keys;
use crate::transport::sealing;
use crate::transport::MAX_FRAME_SIZE;

pub mod ark;
pub mod host;

verus! {

/// Most steps a script is run for. It bounds the runtime of a script and keeps the
/// unterminated frames it can pile up well below the frame limit.
pub const MAX_STEPS: usize = 64;

/// How a run diverged from the model, or why it could not be set up.
#[derive(Clone, Copy, Debug, PartialEq, Eq, Structural)]
pub enum Divergence {
    /// A message of the scripted peer could not be made.
    Setup,
    /// The side under test surfaced something else than the model expected.
    Surfaced,
    /// The side under test emitted something else than the model expected.
    Emitted,
    /// The side under test has a session and the model has none, or the other way
    /// around.
    Session,
    /// A send of the side under test went otherwise than the model expected.
    Sent,
}

/// Most bytes that a token adds to the texts in its claims: the signature of 3373
/// bytes, the key of 1984 bytes, and the other claims and the headers, which take well
/// below the rest.
pub const TOKEN_OVERHEAD: usize = 8192;

/// Whether a token states the claims of a hardware device, under a signature: its
/// serial number, key, validity, manufacturer, model and version.
pub uninterp spec fn hardware_issued(
    token: Seq<u8>,
    serial: Seq<char>,
    key: VerifyingKey,
    since: u64,
    maker: u64,
    model: Seq<u8>,
    version: Seq<char>,
    signer: SigningKey,
) -> bool;

/// Whether a token states the claims of a cloud signer, under a signature: the
/// operator, the endpoint, the validity and the key.
pub uninterp spec fn cloud_issued(
    token: Seq<u8>,
    operator: Seq<char>,
    endpoint: Seq<char>,
    since: u64,
    until: u64,
    key: VerifyingKey,
    signer: SigningKey,
) -> bool;

/// Issues the claims of a hardware device with `cwt::issue`, under the domain of
/// device attestations, the start of validity being the time of issuance. The
/// claims always encode, and decode again as those of a hardware device. Texts take
/// up to four bytes for each character, everything else is of bounded size. The token
/// holds a signing time and is therefore not a function of the claims. The call
/// panics if the clock stands before the Unix epoch.
#[verifier::external_body]
fn issue_hardware(
    serial: &str,
    key: VerifyingKey,
    since: u64,
    maker: u64,
    model: Vec<u8>,
    version: &str,
    signer: &SigningKey,
) -> (token: Vec<u8>)
    ensures
        hardware_issued(token@, serial@, key, since, maker, model@, version@, *signer),
        attestation::hardware_token(token@),
        token@.len() <= 4 * serial@.len() + model@.len() + 4 * version@.len() + TOKEN_OVERHEAD,
{
    let claims = HardwareClaims {
        sub: claims::Subject { sub: serial.into() },
        cnf: claims::Confirm::new(key),
        nbf: claims::NotBefore { nbf: since },
        iat: claims::IssuedAt { iat: since },
        oem: eat::Oemid::new_pen(maker),
        hwm: eat::HwModel { hw_model: model },
        hwv: eat::HwVersion::new(version.into()),
    };
    cwt::issue(&claims, signer, CRYPTO_DOMAIN_DEVICE_ATTESTATION).expect("encodable claims")
}

/// Issues the claims of a cloud signer with `cwt::issue`, under the domain of
/// device attestations. The claims always encode. They lack the time of issuance
/// and name an issuer, so they do not decode as those of a device. Texts take up to
/// four bytes for each character, everything else is of bounded size. The token holds
/// a signing time and is therefore not a function of the claims. The call panics if
/// the clock stands before the Unix epoch.
#[verifier::external_body]
fn issue_cloud(
    operator: &str,
    endpoint: &str,
    since: u64,
    until: u64,
    key: VerifyingKey,
    signer: &SigningKey,
) -> (token: Vec<u8>)
    ensures
        cloud_issued(token@, operator@, endpoint@, since, until, key, *signer),
        !attestation::device_token(token@),
        token@.len() <= 4 * operator@.len() + 4 * endpoint@.len() + TOKEN_OVERHEAD,
{
    let claims = SignerClaims {
        iss: claims::Issuer { iss: operator.into() },
        sub: claims::Subject { sub: endpoint.into() },
        nbf: claims::NotBefore { nbf: since },
        exp: claims::Expiration { exp: until },
        cnf: claims::Confirm::new(key),
    };
    cwt::issue(&claims, signer, CRYPTO_DOMAIN_DEVICE_ATTESTATION).expect("encodable claims")
}

/// Self-signed attestation of a never onboarded device, embedding the identity key
/// that signs the handshake.
pub fn self_attestation(signer: &SigningKey) -> (attestation: Attestation)
    ensures
        hardware_issued(
            attestation@,
            ""@,
            keys::xdsa_public(*signer),
            0,
            0,
            Seq::empty(),
            ""@,
            *signer,
        ),
        attestation::hardware_token(attestation@),
        attestation@.len() <= TOKEN_OVERHEAD,
{
    proof {
        reveal_strlit("");
    }
    let token = issue_hardware("", signer.public_key(), 0, 0, Vec::new(), "", signer);
    Attestation::new(token).unwrap()
}

/// Well formed attestation of the wrong shape, a cloud signer attestation issued
/// under the device attestation domain. The wire refuses it as a device attestation
/// before any verifier sees it.
pub fn cloud_attestation(signer: &SigningKey) -> (token: Vec<u8>)
    ensures
        cloud_issued(token@, ""@, ""@, 0, 1, keys::xdsa_public(*signer), *signer),
        !attestation::device_token(token@),
        token@.len() <= TOKEN_OVERHEAD,
{
    proof {
        reveal_strlit("");
    }
    issue_cloud("", "", 0, 1, signer.public_key(), signer)
}

/// Frame of a packet, delimiter included.
pub open spec fn packet_frame(packet: Seq<u8>) -> Seq<u8> {
    framing::framed(false, cobs::cobs_encoded(packet))
}

/// Frame of a text.
pub open spec fn text_frame(text: Seq<char>) -> Seq<u8> {
    packet_frame(vstd::utf8::encode_utf8(text))
}

/// Whether bytes are one frame with its delimiter, which decodes to a packet.
pub open spec fn enclosed(framed: Seq<u8>) -> bool {
    &&& 2 <= framed.len() <= MAX_FRAME_SIZE + 1
    &&& framed.last() == 0
    &&& cobs::zero_free(framed.drop_last())
    &&& cobs::cobs_decoded(framed.drop_last()) is Ok
}

/// Encodes a packet into a frame, delimiter included.
pub fn frame(packet: &[u8]) -> (framed: Vec<u8>)
    requires
        cobs::encoded_bound(packet@.len() as int) < usize::MAX,
    ensures
        framed@ == packet_frame(packet@),
        2 <= framed@.len() <= cobs::encoded_bound(packet@.len() as int) + 1,
        cobs::encoded_bound(packet@.len() as int) <= MAX_FRAME_SIZE ==> enclosed(framed@),
        cobs::zero_free(cobs::cobs_encoded(packet@)),
        cobs::cobs_decoded(cobs::cobs_encoded(packet@)) == Ok::<
            Seq<u8>,
            darkbio_cobs::DecodeError,
        >(packet@),
{
    let mut framed = cobs::encode(packet);
    framed.push(0);
    proof {
        assert(framed@ =~= packet_frame(packet@));
        assert(framed@.drop_last() =~= cobs::cobs_encoded(packet@));
    }
    framed
}

/// Frames a packet, if its frame is within the size limit.
pub fn try_frame(packet: &[u8]) -> (framed: Option<Vec<u8>>)
    ensures
        match framed {
            Some(framed) => {
                &&& cobs::encoded_bound(packet@.len() as int) <= MAX_FRAME_SIZE
                &&& framed@ == packet_frame(packet@)
                &&& enclosed(framed@)
            },
            None => cobs::encoded_bound(packet@.len() as int) > MAX_FRAME_SIZE,
        },
{
    if cobs::encode_bound(packet.len()) > MAX_FRAME_SIZE {
        return None;
    }
    Some(frame(packet))
}

/// Decodes a frame, its delimiter already stripped, back into a packet. Fails on
/// what is not the encoding of a packet.
pub fn unframe(frame: &[u8]) -> (packet: Result<Vec<u8>, darkbio_cobs::DecodeError>)
    requires
        cobs::zero_free(frame@),
    ensures
        match packet {
            Ok(packet) => cobs::cobs_decoded(frame@) == Ok::<Seq<u8>, darkbio_cobs::DecodeError>(
                packet@,
            ),
            Err(err) => cobs::cobs_decoded(frame@) == Err::<Seq<u8>, darkbio_cobs::DecodeError>(
                err,
            ),
        },
{
    cobs::decode(frame)
}

/// The error a read fails with when a script yields.
pub fn would_block() -> (kind: ErrorKind)
    ensures
        kind == ErrorKind::WouldBlock,
{
    ErrorKind::WouldBlock
}

/// Message of the scripted exchanges that stands for a number.
pub open spec fn tagged(id: u64) -> Seq<u8> {
    vstd::bytes::spec_u64_to_le_bytes(id)
}

/// Number that a message of the scripted exchanges stands for, if it does.
pub open spec fn tag_of(message: Seq<u8>) -> Option<u64> {
    if message.len() == 8 {
        Some(vstd::bytes::spec_u64_from_le_bytes(message))
    } else {
        None
    }
}

/// The message of a number stands for that number.
pub proof fn law_tag_reads_back(id: u64)
    ensures
        tag_of(tagged(id)) == Some(id),
{
    vstd::bytes::lemma_auto_spec_u64_to_from_le_bytes();
}

/// A frame holds the packet of a message at a position of a session.
pub open spec fn holds(
    context: Seq<u8>,
    sequence: nat,
    frame: Seq<u8>,
    message: Seq<u8>,
) -> bool {
    let packet = sealing::packet_of(context, sequence, message);
    &&& frame == cobs::cobs_encoded(packet)
    &&& cobs::carries(frame, packet)
    &&& packet.len() == message.len() + sealing::OVERHEAD
    &&& sequence <= u64::MAX
}

/// What was sealed at the position of a session opens there.
pub proof fn lemma_holds(context: Seq<u8>, sequence: nat, frame: Seq<u8>, message: Seq<u8>)
    requires
        holds(context, sequence, frame, message),
        sealing::reads_back(
            context,
            sequence,
            sealing::packet_of(context, sequence, message),
        ),
    ensures
        cobs::cobs_decoded(frame) matches Ok(packet) && packet == sealing::packet_of(
            context,
            sequence,
            message,
        ) && sealing::message_of(context, sequence, packet) == Some(message),
{
}

/// Makes the message of a number.
pub fn tag(id: u64) -> (message: Vec<u8>)
    ensures
        message@ == tagged(id),
        message@.len() == 8,
{
    proof {
        vstd::bytes::lemma_auto_spec_u64_to_from_le_bytes();
    }
    u64_to_le_bytes(id)
}

/// Reads the number of a message.
pub fn read_tag(message: &[u8]) -> (id: Option<u64>)
    ensures
        id == tag_of(message@),
{
    if message.len() == 8 {
        Some(u64_from_le_bytes(message))
    } else {
        None
    }
}

/// Packet with its last byte flipped.
pub open spec fn tampered(packet: Seq<u8>) -> Seq<u8> {
    if packet.len() > 0 {
        packet.update(packet.len() - 1, packet.last() ^ 0xff)
    } else {
        packet
    }
}

/// Flips the last byte of a packet.
pub fn tamper(packet: &mut Vec<u8>)
    ensures
        final(packet)@ == tampered(old(packet)@),
        old(packet)@.len() > 0 ==> final(packet)@ != old(packet)@,
{
    let size: usize = packet.len();
    if size > 0 {
        let last: u8 = packet[size - 1];
        assert(last ^ 0xff != last) by (bit_vector);
        packet.set(size - 1, last ^ 0xff);
        assert(packet@[size - 1] != old(packet)@[size - 1]);
    }
}

/// Whether a stream of bytes ends at a frame boundary.
pub open spec fn terminated(bytes: Seq<u8>) -> bool {
    bytes.len() == 0 || bytes.last() == 0
}

/// Frames written by the side under test, drained by the scripted peer. Its writes
/// can be made to fail, standing in for a transport that died.
pub struct Outbox {
    bytes: Vec<u8>,
    broken: bool,
}

impl Outbox {
    /// Bytes written and not taken yet.
    pub closed spec fn bytes(self) -> Seq<u8> {
        self.bytes@
    }

    /// Whether every write fails.
    pub closed spec fn broken(self) -> bool {
        self.broken
    }

    /// Starts out empty and working.
    pub fn new() -> (outbox: Outbox)
        ensures
            outbox.bytes() == Seq::<u8>::empty(),
            !outbox.broken(),
    {
        Outbox { bytes: Vec::new(), broken: false }
    }

    /// Takes the frames written so far, delimiters stripped. The sides write frames
    /// whole, so nothing is taken from behind an unterminated one.
    pub fn take_frames(&mut self) -> (frames: Option<Vec<Vec<u8>>>)
        ensures
            final(self).broken() == old(self).broken(),
            match frames {
                Some(frames) => {
                    &&& terminated(old(self).bytes())
                    &&& envelope::contents(frames@) == framing::pieces(old(self).bytes())
                    &&& final(self).bytes() == Seq::<u8>::empty()
                    &&& forall|i: int|
                        0 <= i < frames@.len() ==> cobs::zero_free((#[trigger] frames@[i])@)
                },
                None => !terminated(old(self).bytes()) && *final(self) == *old(self),
            },
    {
        let size: usize = self.bytes.len();
        if size > 0 && self.bytes[size - 1] != 0 {
            return None;
        }
        let mut frames: Vec<Vec<u8>> = Vec::new();
        let mut start: usize = 0;
        let mut end: usize = 0;
        assert(self.bytes@.skip(0) =~= self.bytes@);
        while end < size
            invariant
                start <= end <= size,
                size == self.bytes@.len(),
                *self == *old(self),
                cobs::zero_free(self.bytes@.subrange(start as int, end as int)),
                envelope::contents(frames@) + framing::pieces(self.bytes@.skip(start as int))
                    =~= framing::pieces(self.bytes@),
                forall|i: int|
                    0 <= i < frames@.len() ==> cobs::zero_free((#[trigger] frames@[i])@),
            decreases size - end,
        {
            let byte: u8 = self.bytes[end];
            if byte == 0 {
                let frame = slice_to_vec(slice_subrange(self.bytes.as_slice(), start, end));
                proof {
                    let rest = self.bytes@.skip(start as int);
                    framing::lemma_first_zero(rest);
                    assert(rest.take(end - start) =~= self.bytes@.subrange(
                        start as int,
                        end as int,
                    ));
                    assert(framing::first_zero(rest) == end - start);
                    assert(frame@ =~= rest.take(end - start));
                    assert(rest.skip(end - start + 1) =~= self.bytes@.skip(end + 1));
                    assert(envelope::contents(frames@.push(frame)) =~= envelope::contents(
                        frames@,
                    ).push(frame@));
                    assert(framing::pieces(rest) =~= seq![frame@] + framing::pieces(
                        self.bytes@.skip(end + 1),
                    ));
                }
                frames.push(frame);
                start = end + 1;
                assert(self.bytes@.subrange(start as int, end + 1) =~= Seq::<u8>::empty());
            } else {
                let ghost scanned = self.bytes@.subrange(start as int, end + 1);
                assert forall|j: int| 0 <= j < scanned.len() implies scanned[j] != 0 by {
                    if j < end - start {
                        assert(self.bytes@.subrange(start as int, end as int)[j] != 0);
                    }
                }
            }
            end = end + 1;
        }
        proof {
            let rest = self.bytes@.skip(start as int);
            if start < size {
                assert(self.bytes@.subrange(start as int, end as int)[size - 1 - start] != 0);
            }
            assert(rest =~= Seq::<u8>::empty());
            assert(framing::pieces(rest) =~= Seq::<Seq<u8>>::empty());
        }
        self.bytes = Vec::new();
        assert(self.bytes@ =~= Seq::<u8>::empty());
        Some(frames)
    }

    /// Makes every write fail from here on, or work again.
    pub fn set_broken(&mut self, broken: bool)
        ensures
            final(self).broken() == broken,
            final(self).bytes() == old(self).bytes(),
    {
        self.broken = broken;
    }

    /// Takes in the bytes of one output, or fails.
    pub fn write(&mut self, output: &[u8]) -> (outcome: Result<(), ErrorKind>)
        ensures
            final(self).broken() == old(self).broken(),
            if old(self).broken() {
                &&& outcome == Err::<(), ErrorKind>(ErrorKind::BrokenPipe)
                &&& final(self).bytes() == old(self).bytes()
            } else {
                &&& outcome is Ok
                &&& final(self).bytes() == old(self).bytes() + output@
            },
    {
        if self.broken {
            return Err(ErrorKind::BrokenPipe);
        }
        append(&mut self.bytes, output);
        Ok(())
    }
}

/// A tampered packet is as long as before and differs in its last byte alone. Tampering
/// with it again restores it.
pub proof fn law_tampering_flips_one_byte(packet: Seq<u8>)
    requires
        packet.len() > 0,
    ensures
        tampered(packet).len() == packet.len(),
        tampered(packet).drop_last() == packet.drop_last(),
        tampered(packet).last() != packet.last(),
        tampered(tampered(packet)) == packet,
{
    let last = packet.last();
    assert(last ^ 0xff != last && (last ^ 0xff) ^ 0xff == last) by (bit_vector);
    assert(tampered(packet).drop_last() =~= packet.drop_last());
    assert(tampered(tampered(packet)) =~= packet);
}

/// A packet made a frame is the packet that is read, at a frame boundary, as long as its
/// encoding is sure to fit one.
pub proof fn law_frame_reads_back(packet: &[u8], framed: Vec<u8>)
    requires
        call_ensures(frame, (packet,), framed),
        cobs::encoded_bound(packet@.len() as int) <= MAX_FRAME_SIZE,
    ensures
        framing::items(framing::extended(framing::boundary(), framed@)).len() == 1,
        framing::arrival(framing::items(framing::extended(framing::boundary(), framed@))[0])
            == framing::Arrival::Packet(packet@),
        framing::drained(framing::extended(framing::boundary(), framed@)) == framing::boundary(),
{
    let body = cobs::cobs_encoded(packet@);
    assert(framed@.drop_last() =~= body);
    framing::law_frame_reads_back(body);
}

/// A message of the exchanges is as long as its number takes, and only such a message stands
/// for one. Different numbers have different messages.
pub proof fn law_tags_differ(left: u64, right: u64, message: Seq<u8>)
    ensures
        tagged(left).len() == 8,
        tagged(left) == tagged(right) ==> left == right,
        tag_of(message) is Some <==> message.len() == 8,
{
    vstd::bytes::lemma_auto_spec_u64_to_from_le_bytes();
    law_tag_reads_back(left);
    law_tag_reads_back(right);
}

} // verus!
