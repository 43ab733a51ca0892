//! Delivery of messages between a client and a server: what one side sends into a
//! session the other receives, in order and unchanged.

use darkbio_crypto::xdsa::{PublicKey as VerifyingKey, SecretKey as SigningKey};
use darkbio_crypto::xhpke::Receiver as OpeningContext;
use vstd::prelude::*;

use super::attestation::Attester;
use super::client;
use super::client::Client;
use super::cobs;
use super::framing;
use super::framing::{Arrival, Input};
use super::handshake;
use super::handshake::{Answerer, HelloKeys, Pending};
use super::keys;
use super::outbound;
use super::outbound::Outbound;
use super::sealing;
use super::server;
use super::server::{Event, Report, Server, Stage};
use super::session::Session;
use super::trust::Verifier;
use super::Error;

verus! {

/// Whether the receiving context on one side follows the session that is bound on
/// the other: the next message sent opens with it.
pub open spec fn joined(outbound: Outbound, receiver: Option<OpeningContext>) -> bool {
    &&& outbound.context() matches Some(sealer)
    &&& receiver matches Some(opener)
    &&& sealing::in_step(sealer, opener)
}

/// What a send puts on the wire is one frame, which is read first at a frame boundary,
/// as the packet of the message, whatever follows it.
proof fn lemma_send_reads_back(
    before: Outbound,
    after: Outbound,
    session: u64,
    message: Seq<u8>,
    bytes: Vec<u8>,
    later: Seq<u8>,
)
    requires
        outbound::outbound_sends(before, after, session, message, Ok(bytes)),
        !before.resync(),
    ensures
        ({
            let input = framing::extended(framing::boundary(), bytes@ + later);
            &&& framing::next_item(input) matches Some(item)
            &&& framing::arrival(item) == framing::Arrival::Packet(before.next_packet(message))
            &&& framing::after_item(input) == framing::extended(framing::boundary(), later)
        }),
{
    framing::law_frame_reads_first(cobs::cobs_encoded(before.next_packet(message)), later);
}

/// A message that the client sends is the message that the server receives, whatever was
/// sent behind it. Both sides are then ready for the next one, which is first in what is
/// left to be read.
pub proof fn law_message_reaches_server<A: Attester>(
    client: Outbound,
    next: Outbound,
    session: u64,
    message: Seq<u8>,
    bytes: Vec<u8>,
    later: Seq<u8>,
    before: Server<A>,
    after: Server<A>,
    sent: Outbound,
    out: Outbound,
    now: u64,
    step: server::Step,
)
    requires
        outbound::outbound_sends(client, next, session, message, Ok(bytes)),
        !client.resync(),
        joined(client, before.receiver()),
        before.input() == framing::extended(framing::boundary(), bytes@ + later),
        before.stage() == Stage::Idle,
        before.report() == Report::Nothing,
        sent.bound_is(before.session()),
        server::receives(before, after, sent, out, now, step),
    ensures
        step matches server::Step::Event(Event::Message(received)) && received@ == message,
        joined(next, after.receiver()),
        after.input() == framing::extended(framing::boundary(), later),
        after.stage() == Stage::Idle,
        after.report() == Report::Nothing,
        after.session() == before.session(),
        out == sent,
{
    lemma_send_reads_back(client, next, session, message, bytes, later);
}

/// A message that the server sends is the message that the client receives, whatever was
/// sent behind it. Both sides are then ready for the next one, which is first in what is
/// left to be read.
pub proof fn law_message_reaches_client(
    server: Outbound,
    next: Outbound,
    session: u64,
    message: Seq<u8>,
    bytes: Vec<u8>,
    later: Seq<u8>,
    before: Client,
    after: Client,
    sent: Outbound,
    out: Outbound,
    received: Option<Result<Vec<u8>, Error>>,
)
    requires
        outbound::outbound_sends(server, next, session, message, Ok(bytes)),
        !server.resync(),
        joined(server, before.receiver()),
        before.input() == framing::extended(framing::boundary(), bytes@ + later),
        sent.bound_is(before.session()),
        client::takes(before, after, sent, out, received),
    ensures
        received matches Some(Ok(bytes)) && bytes@ == message,
        joined(next, after.receiver()),
        after.input() == framing::extended(framing::boundary(), later),
        after.session() == before.session(),
        out == sent,
{
    lemma_send_reads_back(server, next, session, message, bytes, later);
}

/// Whether bytes bring an arrival as the last of what they complete, when they reach
/// what a side has read before.
pub open spec fn brings(input: Input, bytes: Seq<u8>, arrival: Arrival) -> bool {
    let items = framing::items(framing::extended(input, bytes));
    items.len() >= 1 && framing::arrival(items.last()) == arrival
}

/// A packet put on the wire as one frame is what arrives.
proof fn lemma_packet_brought(
    input: Input,
    resync: bool,
    packet: Seq<u8>,
    bytes: Seq<u8>,
    arrival: Arrival,
)
    requires
        cobs::carries(cobs::cobs_encoded(packet), packet),
        bytes == framing::framed(resync, cobs::cobs_encoded(packet)),
        resync || input == framing::boundary(),
        brings(input, bytes, arrival),
    ensures
        arrival == Arrival::Packet(packet),
{
    framing::law_packet_reads_back(input, resync, cobs::cobs_encoded(packet), packet);
}

/// A handshake that both sides complete leaves them in one session: what either
/// seals the other opens. The client announces its keys, the server answers them,
/// the client acknowledges the answer, and the server accepts the ack, each message
/// reaching the other side. This holds if the verifier takes no attestation for that
/// of another identity than the server's, and if the key exchanges agree.
pub proof fn law_session_opens<V: Verifier, I, A: Attester>(
    hello: HelloKeys,
    verifier: &V,
    signer: SigningKey,
    times: (Option<i64>, Option<i64>),
    deadlines: (u64, u64),
    inputs: (Input, Input, Input),
    arrivals: (Arrival, Arrival, Arrival),
    greeting: (Outbound, Outbound, client::Progress<I>, client::Phase),
    answer: (Outbound, Outbound, server::Step, Pending, Report),
    ack: (Outbound, Outbound, client::Progress<I>, Session),
    accepted: (Outbound, Outbound, server::Step, Session, Report),
    attesters: (A, A, A),
)
    requires
        client::announces(
            hello,
            times.0,
            deadlines.0,
            greeting.0,
            greeting.1,
            greeting.2,
            greeting.3,
        ),
        greeting.0.resync() || inputs.0 == framing::boundary(),
        greeting.2 matches client::Progress::Write(bytes, _) && brings(
            inputs.0,
            bytes@,
            arrivals.0,
        ),
        server::negotiates(
            Stage::AwaitHello(deadlines.1),
            Stage::AwaitAck(answer.3, deadlines.1),
            answer.4,
            answer.0,
            answer.1,
            attesters.0,
            attesters.1,
            signer,
            times.1,
            arrivals.0,
            answer.2,
        ),
        answer.0.resync() || inputs.1 == framing::boundary(),
        answer.2 matches server::Step::Write(bytes, _) && brings(inputs.1, bytes@, arrivals.1),
        client::greets(
            verifier,
            hello,
            times.0,
            deadlines.0,
            arrivals.1,
            ack.0,
            ack.1,
            ack.2,
            client::Phase::Acked(ack.3),
        ),
        ack.0.resync() || inputs.2 == framing::boundary(),
        ack.2 matches client::Progress::Ack(bytes, _, _) && brings(inputs.2, bytes@, arrivals.2),
        server::negotiates(
            Stage::AwaitAck(answer.3, deadlines.1),
            Stage::Accepted(accepted.3, deadlines.1),
            accepted.4,
            accepted.0,
            accepted.1,
            attesters.1,
            attesters.2,
            signer,
            times.1,
            arrivals.2,
            accepted.2,
        ),
        forall|attest: Seq<u8>, identity: VerifyingKey| #[trigger]
            verifier.accepts(attest, identity) ==> identity == keys::xdsa_public(signer),
        keys::agreed(
            answer.3.sender,
            hello.crypto,
            handshake::CRYPTO_DOMAIN_WIRE_ARK_TO_HOST@,
        ),
        keys::agreed(
            ack.3.sender,
            answer.3.key,
            handshake::CRYPTO_DOMAIN_WIRE_HOST_TO_ARK@,
        ),
    ensures
        sealing::in_step(ack.3.sender, accepted.3.receiver),
        sealing::in_step(accepted.3.sender, ack.3.receiver),
{
    let identity = keys::xdsa_public(signer);
    let pending = answer.3;
    // The server answers the keys that the client announced
    let greeted = greeting.2->Write_0@;
    lemma_packet_brought(inputs.0, greeting.0.resync(), hello.pair(), greeted, arrivals.0);
    let attest = choose|attest: Seq<u8>|
        {
            &&& attesters.0.presents(attest, &attesters.1)
            &&& #[trigger] server::responds(
                hello.public(),
                attest,
                signer,
                times.1,
                Stage::AwaitAck(pending, deadlines.1),
                answer.4,
                answer.0,
                answer.1,
                deadlines.1,
                answer.2,
            )
        };
    let packet = choose|packet: Seq<u8>|
        {
            &&& #[trigger] pending.announced(
                packet,
                attest,
                signer,
                hello.public().1,
                times.1,
            )
            &&& cobs::carries(cobs::cobs_encoded(packet), packet)
            &&& answer.2->Write_0@ == framing::framed(
                answer.0.resync(),
                cobs::cobs_encoded(packet),
            )
        };
    // The client acknowledges that answer
    let answered = answer.2->Write_0@;
    lemma_packet_brought(inputs.1, answer.0.resync(), packet, answered, arrivals.1);
    assert(hello.addressed(packet));
    let concluded = choose|concluded: Result<(Session, Vec<u8>, I), Error>|
        {
            &&& handshake::concludes(
                verifier,
                packet,
                hello,
                times.0,
                Answerer::Server,
                concluded,
            )
            &&& #[trigger] client::finishes(
                concluded,
                deadlines.0,
                ack.0,
                ack.1,
                ack.2,
                client::Phase::Acked(ack.3),
            )
        };
    let (session, sealed, _) = concluded->Ok_0;
    let (signed, attested) = handshake::answer_read(packet, hello)->0;
    assert(handshake::decides(
        verifier,
        signed,
        attested,
        hello,
        times.0,
        Answerer::Server,
        concluded,
    ));
    assert(handshake::completes(signed, hello, identity, session, sealed@, times.0));
    // The server accepts that ack
    let acked = ack.2->Ack_0@;
    lemma_packet_brought(inputs.2, ack.0.resync(), sealed@, acked, arrivals.2);
    handshake::law_handshake_agrees(
        hello,
        pending,
        packet,
        attest,
        signer,
        session,
        sealed@,
        accepted.3,
        (times.1, times.0),
    );
}

/// Once both sides completed a handshake that left them in one session, each is ready to
/// send what the other receives: the client by having written its ack, the server by
/// connecting. Neither has output to recover from, so the first message follows at a
/// frame boundary.
pub proof fn law_session_starts<A: Attester>(
    joining: (Session, Session),
    clients: (Client, Client),
    acked: (Outbound, Outbound),
    result: Result<(), Error>,
    answered: Outbound,
    servers: (Server<A>, Server<A>),
    accepted: (Outbound, Outbound),
    deadline: u64,
    now: u64,
    step: server::Step,
)
    requires
        sealing::in_step(joining.0.sender, joining.1.receiver),
        sealing::in_step(joining.1.sender, joining.0.receiver),
        clients.0.phase() == client::Phase::Acked(joining.0),
        acked.0.output() == outbound::Output::Packet,
        acked.0.sessions() < u64::MAX,
        client::settles(clients.0, clients.1, acked.0, acked.1, Ok(()), result),
        answered.output() == outbound::Output::Packet,
        outbound::outbound_settles(answered, accepted.0, Ok(()), None),
        accepted.0.sessions() < u64::MAX,
        servers.0.stage() == Stage::Accepted(joining.1, deadline),
        servers.0.report() == Report::Nothing,
        now < deadline,
        server::receives(servers.0, servers.1, accepted.0, accepted.1, now, step),
    ensures
        result is Ok,
        step is Event && step->Event_0 is Connected,
        joined(acked.1, servers.1.receiver()),
        joined(accepted.1, clients.1.receiver()),
        !acked.1.resync(),
        !accepted.1.resync(),
        acked.1.bound_is(clients.1.session()),
        accepted.1.bound_is(servers.1.session()),
        servers.1.stage() == Stage::Idle,
        servers.1.report() == Report::Nothing,
{
}

} // verus!
