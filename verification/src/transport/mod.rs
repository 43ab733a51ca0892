//! Framing, handshake and sessions of the wire.

pub mod attestation;
pub mod checker;
pub mod client;
pub mod cobs;
pub mod delivery;
pub mod emitter;
pub mod envelope;
pub mod framing;
pub mod handshake;
pub mod io;
pub mod keys;
pub mod outbound;
pub mod replay;
pub mod sealing;
pub mod sender;
pub mod server;
pub mod session;
pub mod stream;
pub mod tape;
pub mod transcript;
pub mod trust;

use vstd::prelude::*;

use self::io::ErrorKind;

verus! {

/// Maximum encoded frame size, excluding its trailing delimiter. An oversized
/// incoming frame is a framing error that ends any active session. Its remainder
/// is discarded through its delimiter so the stream can carry a fresh handshake.
pub const MAX_FRAME_SIZE: usize = 2 * 1024 * 1024;

/// Conservative soft limit for message sizes, guaranteed to fit a frame after
/// sealing and worst-case COBS overhead. `lemma_max_message_size` shows that it
/// is the largest size with that guarantee.
pub const MAX_MESSAGE_SIZE: usize = 2_088_910;

/// `MAX_MESSAGE_SIZE` is the largest message whose sealed packet is guaranteed to
/// fit a frame.
pub proof fn lemma_max_message_size(size: int)
    requires
        size >= 0,
    ensures
        cobs::encoded_bound(size + sealing::OVERHEAD) <= MAX_FRAME_SIZE <==> size
            <= MAX_MESSAGE_SIZE,
{
}

/// Things that can go wrong in the wire transport.
#[derive(Debug)]
pub enum Error {
    /// The message exceeds `MAX_MESSAGE_SIZE`.
    PacketTooLarge(usize),
    /// The frame size check exceeded `MAX_FRAME_SIZE`. On receive, the size
    /// is the bytes observed when the limit was crossed, a lower bound on the
    /// full frame length. On send, it is the required COBS encoding buffer size.
    FrameTooLarge(usize),
    /// A frame is not valid COBS.
    FrameDecodingFailed(darkbio_cobs::DecodeError),
    /// Writing or flushing a frame failed.
    SendFailed(ErrorKind),
    /// Reading from the stream failed.
    RecvFailed(ErrorKind),
    /// The stream ended.
    Terminated,
    /// The peer signaled that it has no session.
    SessionReset,
    /// The attestation is not for a hardware or emulated device.
    InvalidAttestation,
    /// The handshake was refused, for the reason given.
    HandshakeFailed(String),
    /// A session is missing, ended, or failed to encrypt or decrypt.
    EncryptionFailed(String),
}

impl Error {
    /// Name of the error's variant.
    pub open spec fn name(self) -> Seq<char> {
        match self {
            Error::PacketTooLarge(_) => "PacketTooLarge"@,
            Error::FrameTooLarge(_) => "FrameTooLarge"@,
            Error::FrameDecodingFailed(_) => "FrameDecodingFailed"@,
            Error::SendFailed(_) => "SendFailed"@,
            Error::RecvFailed(_) => "RecvFailed"@,
            Error::Terminated => "Terminated"@,
            Error::SessionReset => "SessionReset"@,
            Error::InvalidAttestation => "InvalidAttestation"@,
            Error::HandshakeFailed(_) => "HandshakeFailed"@,
            Error::EncryptionFailed(_) => "EncryptionFailed"@,
        }
    }

    /// Name of the error's variant, by which transcripts tell errors apart.
    pub fn kind(&self) -> (kind: &'static str)
        ensures
            kind@ == self.name(),
    {
        match self {
            Error::PacketTooLarge(_) => "PacketTooLarge",
            Error::FrameTooLarge(_) => "FrameTooLarge",
            Error::FrameDecodingFailed(_) => "FrameDecodingFailed",
            Error::SendFailed(_) => "SendFailed",
            Error::RecvFailed(_) => "RecvFailed",
            Error::Terminated => "Terminated",
            Error::SessionReset => "SessionReset",
            Error::InvalidAttestation => "InvalidAttestation",
            Error::HandshakeFailed(_) => "HandshakeFailed",
            Error::EncryptionFailed(_) => "EncryptionFailed",
        }
    }
}

/// No two kinds of error share a name, so that an error is known by it.
pub proof fn law_names_tell_apart(left: Error, right: Error)
    requires
        left.name() == right.name(),
    ensures
        left is PacketTooLarge <==> right is PacketTooLarge,
        left is FrameTooLarge <==> right is FrameTooLarge,
        left is FrameDecodingFailed <==> right is FrameDecodingFailed,
        left is SendFailed <==> right is SendFailed,
        left is RecvFailed <==> right is RecvFailed,
        left is Terminated <==> right is Terminated,
        left is SessionReset <==> right is SessionReset,
        left is InvalidAttestation <==> right is InvalidAttestation,
        left is HandshakeFailed <==> right is HandshakeFailed,
        left is EncryptionFailed <==> right is EncryptionFailed,
{
    reveal_strlit("PacketTooLarge");
    reveal_strlit("FrameTooLarge");
    reveal_strlit("FrameDecodingFailed");
    reveal_strlit("SendFailed");
    reveal_strlit("RecvFailed");
    reveal_strlit("Terminated");
    reveal_strlit("SessionReset");
    reveal_strlit("InvalidAttestation");
    reveal_strlit("HandshakeFailed");
    reveal_strlit("EncryptionFailed");
    assert("PacketTooLarge"@.len() == 14);
    assert("FrameTooLarge"@.len() == 13);
    assert("FrameDecodingFailed"@.len() == 19);
    assert("SendFailed"@.len() == 10 && "SendFailed"@[0] == 'S');
    assert("RecvFailed"@.len() == 10 && "RecvFailed"@[0] == 'R');
    assert("Terminated"@.len() == 10 && "Terminated"@[0] == 'T');
    assert("SessionReset"@.len() == 12);
    assert("InvalidAttestation"@.len() == 18);
    assert("HandshakeFailed"@.len() == 15);
    assert("EncryptionFailed"@.len() == 16);
}

} // verus!
