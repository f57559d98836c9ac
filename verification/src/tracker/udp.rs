//! UDP tracker transport (BEP 15).
//!
//! The protocol is a two-step binary exchange:
//!
//! 1. **Connect**: we send a fixed magic protocol ID and a random transaction ID; the tracker
//!    replies with a short-lived `connection_id`.
//! 2. **Announce**: we send the announce fields keyed by that `connection_id`; the tracker replies
//!    with the interval, peer counts, and a compact peer list.
//!
//! Every reply echoes our transaction ID, which is verified. [`Exchange`] decides what to send
//! and when to give up; its driver owns the socket and the clock.

use vstd::prelude::*;
use vstd::slice::slice_subrange;
use rand::Rng;
use crate::bigendian::{
    be_bytes, be_value, lemma_be_bytes_len, lemma_be_limits, lemma_be_value_of_bytes, push_u16,
    push_u32, push_u64, read_u32, read_u64,
};
use crate::error::{outcome, Error, Fault, Result};
use crate::text::{decimal, lossy, lossy_text, push_decimal};
use crate::tracker::{
    compact_blob, compact_peers_v4, law_compact_peers_round_trip, parse_compact_peers_v4,
    AnnounceParams, AnnounceResponse, PeerAddr, ResponseView,
};

verus! {

/// Magic constant every connect request starts with (BEP 15).
pub const PROTOCOL_ID: u64 = 0x0417_2710_1980;

pub const ACTION_CONNECT: u32 = 0;

pub const ACTION_ANNOUNCE: u32 = 1;

pub const ACTION_ERROR: u32 = 3;

/// Minimum size of a connect reply, in bytes.
pub const CONNECT_RESPONSE_LEN: usize = 16;

/// Minimum size of an announce reply, in bytes.
pub const ANNOUNCE_RESPONSE_HEADER_LEN: usize = 20;

/// How often a request is sent before the tracker is given up.
pub const MAX_ATTEMPTS: u32 = 3;

/// The connect request.
pub open spec fn connect_request(transaction_id: u32) -> Seq<u8> {
    be_bytes(PROTOCOL_ID as nat, 8) + be_bytes(ACTION_CONNECT as nat, 4) + be_bytes(
        transaction_id as nat,
        4,
    )
}

/// The number of peers wanted on the wire; all ones (minus one) lets the tracker choose.
pub open spec fn num_want(numwant: Option<u32>) -> u32 {
    match numwant {
        Some(n) => n,
        None => 0xffff_ffff,
    }
}

/// The announce request. The IP address is zero: "use the source address".
pub open spec fn announce_request(
    connection_id: u64,
    transaction_id: u32,
    key: u32,
    params: AnnounceParams,
) -> Seq<u8> {
    be_bytes(connection_id as nat, 8) + be_bytes(ACTION_ANNOUNCE as nat, 4) + be_bytes(
        transaction_id as nat,
        4,
    ) + params.info_hash@ + params.peer_id@ + be_bytes(params.downloaded as nat, 8) + be_bytes(
        params.left as nat,
        8,
    ) + be_bytes(params.uploaded as nat, 8) + be_bytes(params.event.udp_code() as nat, 4)
        + be_bytes(0, 4) + be_bytes(key as nat, 4) + be_bytes(num_want(params.numwant) as nat, 4)
        + be_bytes(params.port as nat, 2)
}

/// The 32-bit field at `at`.
pub open spec fn field_u32(buf: Seq<u8>, at: int) -> nat {
    be_value(buf.subrange(at, at + 4))
}

/// The connection id in a connect reply, or what is wrong with the reply.
pub open spec fn connect_reply(buf: Seq<u8>, expected_txn: u32) -> std::result::Result<u64, Fault> {
    if buf.len() < CONNECT_RESPONSE_LEN {
        Err(
            Fault::UdpProtocol(
                "connect response too short: "@ + decimal(buf.len()) + " bytes"@,
            ),
        )
    } else if field_u32(buf, 4) != expected_txn {
        Err(Fault::UdpProtocol("connect transaction id mismatch"@))
    } else if field_u32(buf, 0) != ACTION_CONNECT {
        Err(Fault::UdpProtocol("expected connect action, got "@ + decimal(field_u32(buf, 0))))
    } else {
        Ok(be_value(buf.subrange(8, 16)) as u64)
    }
}

/// The response in an announce reply, or what is wrong with the reply or with the request.
pub open spec fn announce_reply(buf: Seq<u8>, expected_txn: u32) -> std::result::Result<
    ResponseView,
    Fault,
> {
    if buf.len() < 8 {
        Err(
            Fault::UdpProtocol(
                "announce response too short: "@ + decimal(buf.len()) + " bytes"@,
            ),
        )
    } else if field_u32(buf, 4) != expected_txn {
        Err(Fault::UdpProtocol("announce transaction id mismatch"@))
    } else if field_u32(buf, 0) == ACTION_ERROR {
        Err(Fault::TrackerFailure(lossy_text(buf.skip(8))))
    } else if field_u32(buf, 0) != ACTION_ANNOUNCE {
        Err(Fault::UdpProtocol("expected announce action, got "@ + decimal(field_u32(buf, 0))))
    } else if buf.len() < ANNOUNCE_RESPONSE_HEADER_LEN {
        Err(Fault::UdpProtocol("announce response missing header fields"@))
    } else {
        match compact_peers_v4(buf.skip(20)) {
            Err(fault) => Err(fault),
            Ok(peers) => Ok(
                ResponseView {
                    interval: field_u32(buf, 8) as u64,
                    peers,
                    seeders: Some(field_u32(buf, 16) as u32),
                    leechers: Some(field_u32(buf, 12) as u32),
                },
            ),
        }
    }
}

/// Build the 16-byte connect request.
pub fn build_connect_request(transaction_id: u32) -> (request: [u8; 16])
    ensures
        request@ == connect_request(transaction_id),
{
    let mut bytes: Vec<u8> = Vec::new();
    push_u64(&mut bytes, PROTOCOL_ID);
    push_u32(&mut bytes, ACTION_CONNECT);
    push_u32(&mut bytes, transaction_id);
    proof {
        lemma_be_bytes_len(PROTOCOL_ID as nat, 8);
        lemma_be_bytes_len(ACTION_CONNECT as nat, 4);
        lemma_be_bytes_len(transaction_id as nat, 4);
        assert(bytes@ =~= connect_request(transaction_id));
    }
    let mut request: [u8; 16] = [0u8; 16];
    let mut i: usize = 0;
    while i < 16
        invariant
            i <= 16,
            bytes@.len() == 16,
            forall|k: int| 0 <= k < i ==> request[k] == bytes@[k],
        decreases 16 - i,
    {
        request[i] = bytes[i];
        i += 1;
    }
    assert(request@ =~= bytes@);
    request
}

/// Validate a connect reply and extract the `connection_id`.
pub fn parse_connect_response(buf: &[u8], expected_txn: u32) -> (result: Result<u64>)
    ensures
        match connect_reply(buf@, expected_txn) {
            Ok(id) => result matches Ok(found) && found == id,
            Err(fault) => result matches Err(error) && error@ == fault,
        },
{
    if buf.len() < CONNECT_RESPONSE_LEN {
        let mut text = "connect response too short: ".to_owned();
        push_decimal(&mut text, buf.len() as u64);
        text.append(" bytes");
        return Err(Error::UdpProtocol(text));
    }
    let action: u32 = read_u32(buf, 0);
    let txn: u32 = read_u32(buf, 4);
    if txn != expected_txn {
        return Err(Error::UdpProtocol("connect transaction id mismatch".to_owned()));
    }
    if action != ACTION_CONNECT {
        let mut text = "expected connect action, got ".to_owned();
        push_decimal(&mut text, action as u64);
        return Err(Error::UdpProtocol(text));
    }
    Ok(read_u64(buf, 8))
}

/// Build the 98-byte announce request.
pub fn build_announce_request(
    connection_id: u64,
    transaction_id: u32,
    key: u32,
    params: &AnnounceParams,
) -> (request: [u8; 98])
    ensures
        request@ == announce_request(connection_id, transaction_id, key, *params),
{
    let mut bytes: Vec<u8> = Vec::new();
    push_u64(&mut bytes, connection_id);
    push_u32(&mut bytes, ACTION_ANNOUNCE);
    push_u32(&mut bytes, transaction_id);
    let ghost s1 = bytes@;
    bytes.extend_from_slice(params.info_hash.0.as_slice());
    assert(bytes@ =~= s1 + params.info_hash@);
    let ghost s2 = bytes@;
    bytes.extend_from_slice(params.peer_id.0.as_slice());
    assert(bytes@ =~= s2 + params.peer_id@);
    push_u64(&mut bytes, params.downloaded);
    push_u64(&mut bytes, params.left);
    push_u64(&mut bytes, params.uploaded);
    push_u32(&mut bytes, params.event.as_udp_code());
    push_u32(&mut bytes, 0);
    push_u32(&mut bytes, key);
    let wanted: u32 = match params.numwant {
        Some(n) => n,
        None => 0xffff_ffff,
    };
    push_u32(&mut bytes, wanted);
    push_u16(&mut bytes, params.port);
    proof {
        let start = be_bytes(connection_id as nat, 8) + be_bytes(ACTION_ANNOUNCE as nat, 4)
            + be_bytes(transaction_id as nat, 4);
        assert(s1 =~= start);
        lemma_announce_request_len(connection_id, transaction_id, key, *params);
    }
    let mut request: [u8; 98] = [0u8; 98];
    let mut i: usize = 0;
    while i < 98
        invariant
            i <= 98,
            bytes@.len() == 98,
            forall|k: int| 0 <= k < i ==> request[k] == bytes@[k],
        decreases 98 - i,
    {
        request[i] = bytes[i];
        i += 1;
    }
    assert(request@ =~= bytes@);
    request
}

/// The lengths of the parts of an announce request.
proof fn lemma_announce_request_len(
    connection_id: u64,
    transaction_id: u32,
    key: u32,
    params: AnnounceParams,
)
    ensures
        announce_request(connection_id, transaction_id, key, params).len() == 98,
{
    lemma_be_bytes_len(connection_id as nat, 8);
    lemma_be_bytes_len(ACTION_ANNOUNCE as nat, 4);
    lemma_be_bytes_len(transaction_id as nat, 4);
    lemma_be_bytes_len(params.downloaded as nat, 8);
    lemma_be_bytes_len(params.left as nat, 8);
    lemma_be_bytes_len(params.uploaded as nat, 8);
    lemma_be_bytes_len(params.event.udp_code() as nat, 4);
    lemma_be_bytes_len(0, 4);
    lemma_be_bytes_len(key as nat, 4);
    lemma_be_bytes_len(num_want(params.numwant) as nat, 4);
    lemma_be_bytes_len(params.port as nat, 2);
}

/// Validate an announce reply and parse it into an [`AnnounceResponse`].
pub fn parse_announce_response(buf: &[u8], expected_txn: u32) -> (result: Result<AnnounceResponse>)
    ensures
        outcome(result) == announce_reply(buf@, expected_txn),
{
    if buf.len() < 8 {
        let mut text = "announce response too short: ".to_owned();
        push_decimal(&mut text, buf.len() as u64);
        text.append(" bytes");
        return Err(Error::UdpProtocol(text));
    }
    let action: u32 = read_u32(buf, 0);
    let txn: u32 = read_u32(buf, 4);
    if txn != expected_txn {
        return Err(Error::UdpProtocol("announce transaction id mismatch".to_owned()));
    }
    if action == ACTION_ERROR {
        assert(buf@.subrange(8, buf@.len() as int) =~= buf@.skip(8));
        return Err(Error::TrackerFailure(lossy(slice_subrange(buf, 8, buf.len()))));
    }
    if action != ACTION_ANNOUNCE {
        let mut text = "expected announce action, got ".to_owned();
        push_decimal(&mut text, action as u64);
        return Err(Error::UdpProtocol(text));
    }
    if buf.len() < ANNOUNCE_RESPONSE_HEADER_LEN {
        return Err(Error::UdpProtocol("announce response missing header fields".to_owned()));
    }
    let interval: u64 = read_u32(buf, 8) as u64;
    let leechers: u32 = read_u32(buf, 12);
    let seeders: u32 = read_u32(buf, 16);
    assert(buf@.subrange(20, buf@.len() as int) =~= buf@.skip(20));
    match parse_compact_peers_v4(slice_subrange(buf, ANNOUNCE_RESPONSE_HEADER_LEN, buf.len())) {
        Err(error) => Err(error),
        Ok(peers) => Ok(
            AnnounceResponse { interval, peers, seeders: Some(seeders), leechers: Some(leechers) },
        ),
    }
}

/// What an exchange waits for.
#[derive(Debug, Clone, Copy, PartialEq, Eq, Structural)]
pub enum Stage {
    /// The reply to the connect request.
    Connecting,
    /// The reply to the announce request for this connection.
    Announcing { connection_id: u64 },
}

/// What the driver of an exchange does next.
#[derive(Debug)]
pub enum Step {
    /// Send this packet, then wait for a reply until the attempt times out.
    Send(Vec<u8>),
    /// The exchange is over.
    Done(Result<AnnounceResponse>),
}

/// A [`Step`] over plain values.
#[verifier::ext_equal]
pub enum StepView {
    Send(Seq<u8>),
    Done(std::result::Result<ResponseView, Fault>),
}

impl View for Step {
    type V = StepView;

    open spec fn view(&self) -> StepView {
        match self {
            Step::Send(packet) => StepView::Send(packet@),
            Step::Done(result) => StepView::Done(outcome(*result)),
        }
    }
}

/// One announce to a UDP tracker.
#[derive(Debug, Clone, Copy)]
pub struct Exchange {
    pub params: AnnounceParams,
    pub connect_txn: u32,
    pub announce_txn: u32,
    pub key: u32,
    /// What is waited for.
    pub stage: Stage,
    /// How often the request of this stage was sent.
    pub attempts: u32,
}

/// `rand::thread_rng` with `Rng::gen`: a random number, about which nothing is promised.
#[verifier::external_body]
fn random_u32() -> u32 {
    rand::thread_rng().gen()
}

impl Exchange {
    /// The packet of the current stage.
    pub open spec fn packet(self) -> Seq<u8> {
        match self.stage {
            Stage::Connecting => connect_request(self.connect_txn),
            Stage::Announcing { connection_id } => announce_request(
                connection_id,
                self.announce_txn,
                self.key,
                self.params,
            ),
        }
    }

    /// Begin an announce, with fresh random transaction IDs and key: the exchange, and what to
    /// do first.
    pub fn start(params: AnnounceParams) -> (begun: (Exchange, Step))
        ensures
            begun.0.params == params,
            begun.0.stage == Stage::Connecting,
            begun.0.attempts == 1,
            begun.1@ == StepView::Send(connect_request(begun.0.connect_txn)),
    {
        let connect_txn: u32 = random_u32();
        let announce_txn: u32 = random_u32();
        let key: u32 = random_u32();
        Exchange::with_ids(params, connect_txn, announce_txn, key)
    }

    /// Begin an announce with the given transaction IDs and key.
    pub fn with_ids(params: AnnounceParams, connect_txn: u32, announce_txn: u32, key: u32) -> (begun:
        (Exchange, Step))
        ensures
            begun.0 == (Exchange {
                params,
                connect_txn,
                announce_txn,
                key,
                stage: Stage::Connecting,
                attempts: 1,
            }),
            begun.1@ == StepView::Send(connect_request(connect_txn)),
    {
        let exchange = Exchange {
            params,
            connect_txn,
            announce_txn,
            key,
            stage: Stage::Connecting,
            attempts: 1,
        };
        let packet: Vec<u8> = exchange.build_packet();
        (exchange, Step::Send(packet))
    }

    fn build_packet(&self) -> (packet: Vec<u8>)
        ensures
            packet@ == self.packet(),
    {
        let mut packet: Vec<u8> = Vec::new();
        match self.stage {
            Stage::Connecting => {
                let request: [u8; 16] = build_connect_request(self.connect_txn);
                packet.extend_from_slice(request.as_slice());
                assert(packet@ =~= request@);
            },
            Stage::Announcing { connection_id } => {
                let request: [u8; 98] = build_announce_request(
                    connection_id,
                    self.announce_txn,
                    self.key,
                    &self.params,
                );
                packet.extend_from_slice(request.as_slice());
                assert(packet@ =~= request@);
            },
        }
        packet
    }

    /// A reply arrived. A connect reply leads on to the announce request, an announce reply to
    /// the end; a reply that is wrong ends the exchange.
    pub fn on_reply(&mut self, reply: &[u8]) -> (step: Step)
        ensures
            match old(self).stage {
                Stage::Connecting => match connect_reply(reply@, old(self).connect_txn) {
                    Ok(connection_id) => {
                        &&& *final(self) == (Exchange {
                            stage: Stage::Announcing { connection_id },
                            attempts: 1,
                            ..*old(self)
                        })
                        &&& step@ == StepView::Send(final(self).packet())
                    },
                    Err(fault) => {
                        &&& *final(self) == *old(self)
                        &&& step@ == StepView::Done(Err(fault))
                    },
                },
                Stage::Announcing { .. } => {
                    &&& *final(self) == *old(self)
                    &&& step@ == StepView::Done(announce_reply(reply@, old(self).announce_txn))
                },
            },
    {
        match self.stage {
            Stage::Connecting => match parse_connect_response(reply, self.connect_txn) {
                Err(error) => Step::Done(Err(error)),
                Ok(connection_id) => {
                    self.stage = Stage::Announcing { connection_id };
                    self.attempts = 1;
                    Step::Send(self.build_packet())
                },
            },
            Stage::Announcing { .. } => Step::Done(
                parse_announce_response(reply, self.announce_txn),
            ),
        }
    }

    /// No reply arrived in time: the same packet is sent again, until the attempts are used up.
    pub fn on_timeout(&mut self) -> (step: Step)
        ensures
            if old(self).attempts < MAX_ATTEMPTS {
                &&& *final(self) == (Exchange {
                    attempts: (old(self).attempts + 1) as u32,
                    ..*old(self)
                })
                &&& step@ == StepView::Send(old(self).packet())
            } else {
                &&& *final(self) == *old(self)
                &&& step@ == StepView::Done(Err(Fault::Timeout))
            },
    {
        if self.attempts < MAX_ATTEMPTS {
            self.attempts = self.attempts + 1;
            Step::Send(self.build_packet())
        } else {
            Step::Done(Err(Error::Timeout))
        }
    }
}

/// What a tracker answers to a connect request.
pub open spec fn connect_reply_bytes(transaction_id: u32, connection_id: u64) -> Seq<u8> {
    be_bytes(ACTION_CONNECT as nat, 4) + be_bytes(transaction_id as nat, 4) + be_bytes(
        connection_id as nat,
        8,
    )
}

/// What a tracker answers to an announce request.
pub open spec fn announce_reply_bytes(
    transaction_id: u32,
    interval: u32,
    leechers: u32,
    seeders: u32,
    peers: Seq<(u32, u16)>,
) -> Seq<u8> {
    be_bytes(ACTION_ANNOUNCE as nat, 4) + be_bytes(transaction_id as nat, 4) + be_bytes(
        interval as nat,
        4,
    ) + be_bytes(leechers as nat, 4) + be_bytes(seeders as nat, 4) + compact_blob(peers)
}

/// The reply of a tracker that follows the protocol is understood: the connection id is the one
/// that was sent where the transaction is ours, and another transaction's reply is turned down.
pub proof fn law_connect_reply_is_understood(transaction_id: u32, connection_id: u64, ours: u32)
    ensures
        connect_reply(connect_reply_bytes(transaction_id, connection_id), ours) == (if ours
            == transaction_id {
            Ok::<u64, Fault>(connection_id)
        } else {
            Err(Fault::UdpProtocol("connect transaction id mismatch"@))
        }),
{
    let reply = connect_reply_bytes(transaction_id, connection_id);
    lemma_be_limits();
    lemma_be_value_of_bytes(ACTION_CONNECT as nat, 4);
    lemma_be_value_of_bytes(transaction_id as nat, 4);
    lemma_be_value_of_bytes(connection_id as nat, 8);
    assert(reply.subrange(0, 4) =~= be_bytes(ACTION_CONNECT as nat, 4));
    assert(reply.subrange(4, 8) =~= be_bytes(transaction_id as nat, 4));
    assert(reply.subrange(8, 16) =~= be_bytes(connection_id as nat, 8));
}

/// The reply of a tracker that follows the protocol is understood: interval, counts and peers are
/// those that were sent where the transaction is ours, and another transaction's reply is turned
/// down.
pub proof fn law_announce_reply_is_understood(
    transaction_id: u32,
    interval: u32,
    leechers: u32,
    seeders: u32,
    peers: Seq<(u32, u16)>,
    ours: u32,
)
    ensures
        announce_reply(
            announce_reply_bytes(transaction_id, interval, leechers, seeders, peers),
            ours,
        ) == (if ours == transaction_id {
            Ok::<ResponseView, Fault>(
                ResponseView {
                    interval: interval as u64,
                    peers: Seq::new(
                        peers.len(),
                        |i: int| (PeerAddr::V4 { ip: peers[i].0, port: peers[i].1 }),
                    ),
                    seeders: Some(seeders),
                    leechers: Some(leechers),
                },
            )
        } else {
            Err(Fault::UdpProtocol("announce transaction id mismatch"@))
        }),
{
    let reply = announce_reply_bytes(transaction_id, interval, leechers, seeders, peers);
    lemma_be_limits();
    lemma_be_value_of_bytes(ACTION_ANNOUNCE as nat, 4);
    lemma_be_value_of_bytes(transaction_id as nat, 4);
    lemma_be_value_of_bytes(interval as nat, 4);
    lemma_be_value_of_bytes(leechers as nat, 4);
    lemma_be_value_of_bytes(seeders as nat, 4);
    assert(reply.subrange(0, 4) =~= be_bytes(ACTION_ANNOUNCE as nat, 4));
    assert(reply.subrange(4, 8) =~= be_bytes(transaction_id as nat, 4));
    assert(reply.subrange(8, 12) =~= be_bytes(interval as nat, 4));
    assert(reply.subrange(12, 16) =~= be_bytes(leechers as nat, 4));
    assert(reply.subrange(16, 20) =~= be_bytes(seeders as nat, 4));
    assert(reply.skip(20) =~= compact_blob(peers));
    law_compact_peers_round_trip(peers);
}

/// The announce request has every field in its place.
pub proof fn law_announce_request_layout(
    connection_id: u64,
    transaction_id: u32,
    key: u32,
    params: AnnounceParams,
)
    ensures
        ({
            let request = announce_request(connection_id, transaction_id, key, params);
            &&& request.len() == 98
            &&& be_value(request.subrange(0, 8)) == connection_id
            &&& field_u32(request, 8) == ACTION_ANNOUNCE
            &&& field_u32(request, 12) == transaction_id
            &&& request.subrange(16, 36) == params.info_hash@
            &&& request.subrange(36, 56) == params.peer_id@
            &&& be_value(request.subrange(56, 64)) == params.downloaded
            &&& be_value(request.subrange(64, 72)) == params.left
            &&& be_value(request.subrange(72, 80)) == params.uploaded
            &&& field_u32(request, 80) == params.event.udp_code()
            &&& field_u32(request, 84) == 0
            &&& field_u32(request, 88) == key
            &&& field_u32(request, 92) == num_want(params.numwant)
            &&& be_value(request.subrange(96, 98)) == params.port
        }),
{
    let request = announce_request(connection_id, transaction_id, key, params);
    lemma_announce_request_len(connection_id, transaction_id, key, params);
    lemma_be_limits();
    lemma_be_value_of_bytes(connection_id as nat, 8);
    lemma_be_value_of_bytes(ACTION_ANNOUNCE as nat, 4);
    lemma_be_value_of_bytes(transaction_id as nat, 4);
    lemma_be_value_of_bytes(params.downloaded as nat, 8);
    lemma_be_value_of_bytes(params.left as nat, 8);
    lemma_be_value_of_bytes(params.uploaded as nat, 8);
    lemma_be_value_of_bytes(params.event.udp_code() as nat, 4);
    lemma_be_value_of_bytes(0, 4);
    lemma_be_value_of_bytes(key as nat, 4);
    lemma_be_value_of_bytes(num_want(params.numwant) as nat, 4);
    lemma_be_value_of_bytes(params.port as nat, 2);
    assert(request.subrange(0, 8) =~= be_bytes(connection_id as nat, 8));
    assert(request.subrange(8, 12) =~= be_bytes(ACTION_ANNOUNCE as nat, 4));
    assert(request.subrange(12, 16) =~= be_bytes(transaction_id as nat, 4));
    assert(request.subrange(16, 36) =~= params.info_hash@);
    assert(request.subrange(36, 56) =~= params.peer_id@);
    assert(request.subrange(56, 64) =~= be_bytes(params.downloaded as nat, 8));
    assert(request.subrange(64, 72) =~= be_bytes(params.left as nat, 8));
    assert(request.subrange(72, 80) =~= be_bytes(params.uploaded as nat, 8));
    assert(request.subrange(80, 84) =~= be_bytes(params.event.udp_code() as nat, 4));
    assert(request.subrange(84, 88) =~= be_bytes(0, 4));
    assert(request.subrange(88, 92) =~= be_bytes(key as nat, 4));
    assert(request.subrange(92, 96) =~= be_bytes(num_want(params.numwant) as nat, 4));
    assert(request.subrange(96, 98) =~= be_bytes(params.port as nat, 2));
}

} // verus!
