//! Handles bound to individual transport sessions.

use vstd::prelude::*;

use super::outbound;
use super::outbound::{Outbound, Output, Refusal};
use super::sealing;
use super::{Error, MAX_MESSAGE_SIZE};

verus! {

/// Handle for sending messages into a session. It belongs permanently to the
/// session that issued it. Session failure, disconnect or reconnect invalidates
/// all that session's handles. A new session supplies a new sender.
#[derive(Clone, Copy, Debug, PartialEq, Eq, Structural)]
pub struct Sender {
    session: u64,  // Number of the session the handle belongs to
}

impl Sender {
    /// Number of the session the handle belongs to.
    pub closed spec fn session(self) -> u64 {
        self.session
    }

    /// Makes a handle for a session.
    pub(crate) fn new(session: u64) -> (sender: Sender)
        ensures
            sender.session() == session,
    {
        Sender { session }
    }

    /// Number of the session the handle belongs to, zero if it was made without one.
    pub fn session_id(&self) -> (session: u64)
        ensures
            session == self.session(),
    {
        self.session
    }

    /// Encrypts a message and hands out its frame. An oversized message is refused
    /// without advancing encryption or ending the session. A handle of an ended
    /// session is refused.
    pub fn send(&self, outbound: &mut Outbound, message: &[u8]) -> (sent: Result<Vec<u8>, Refusal>)
        requires
            old(outbound).output() == Output::Settled,
        ensures
            outbound::outbound_sends(
                *old(outbound),
                *final(outbound),
                self.session(),
                message@,
                sent,
            ),
            old(outbound).bound_is(self.session()) && message@.len() <= MAX_MESSAGE_SIZE
                && sealing::sender_sequence(old(outbound).context()->0) <= u64::MAX ==> sent is Ok,
            sent matches Err(refusal) && refusal.error is PacketTooLarge ==> message@.len()
                > MAX_MESSAGE_SIZE,
    {
        outbound.send(self.session, message)
    }

    /// Sends through an outgoing half that may have been released, see `send`. Without one
    /// the message is refused, the transport being gone.
    pub fn send_through(&self, outbound: Option<&mut Outbound>, message: &[u8]) -> (sent: Result<
        Vec<u8>,
        Refusal,
    >)
        requires
            outbound matches Some(outbound) ==> outbound.output() == Output::Settled,
        ensures
            match outbound {
                Some(outbound) => outbound::outbound_sends(
                    *outbound,
                    *final(outbound),
                    self.session(),
                    message@,
                    sent,
                ),
                None => {
                    &&& sent matches Err(refusal)
                    &&& refusal.error == Error::Terminated
                    &&& refusal.signal is None
                },
            },
    {
        match outbound {
            Some(outbound) => self.send(outbound, message),
            None => Err(Refusal { error: Error::Terminated, signal: None }),
        }
    }

    /// Ends this handle's session, see `Outbound::disconnect`.
    pub fn disconnect(&self, outbound: &mut Outbound) -> (signal: Option<Vec<u8>>)
        requires
            old(outbound).output() == Output::Settled,
        ensures
            outbound::disconnects(*old(outbound), *final(outbound), self.session(), signal),
    {
        outbound.disconnect(self.session)
    }
}

} // verus!
