//! Announcing by UDP, and the search for peers over all trackers.

use vstd::prelude::*;
use crate::bigendian::{
    be_bytes, be_value, lemma_be_limits, lemma_be_value_2, lemma_be_value_of_bytes,
};
use crate::error::{outcome, Fault, Result};
use crate::laws::announcing::{is_compact, lemma_compact, u16_at};
use crate::laws::wire::{lemma_u32_at, u32_at};
use crate::text::lossy_text;
use crate::tracker::{
    compact_peers_v4, AnnounceParams, AnnounceResponse, Event, PeerAddr, ResponseView,
};
use crate::tracker::search::{add_all_new, PeerSearch};
use crate::tracker::udp::{
    announce_request, build_announce_request, build_connect_request, connect_request,
    law_announce_request_layout, parse_announce_response, parse_connect_response, Exchange, Stage,
    Step, StepView,
};

verus! {

/// The number in the eight bytes at `at`, the highest byte first.
pub open spec fn u64_at(bytes: Seq<u8>, at: int) -> int {
    u32_at(bytes, at) * 0x1_0000_0000 + u32_at(bytes, at + 4)
}

pub(crate) proof fn lemma_u64_at(bytes: Seq<u8>, at: int)
    requires
        0 <= at,
        at + 8 <= bytes.len(),
    ensures
        u64_at(bytes, at) == be_value(bytes.subrange(at, at + 8)),
        u64_at(bytes, at) <= 0xffff_ffff_ffff_ffff,
{
    lemma_u32_at(bytes, at);
    lemma_u32_at(bytes, at + 4);
    lemma_be_limits();
    let all = bytes.subrange(at, at + 8);
    let high = bytes.subrange(at, at + 4);
    let low = bytes.subrange(at + 4, at + 8);
    crate::bigendian::lemma_be_value_split(high, low);
    assert(all =~= high + low);
    crate::bigendian::lemma_be_value_bound(all);
}

// Requests.

/// Whether a packet is the connect request with this transaction id.
pub open spec fn is_connect_packet(packet: Seq<u8>, transaction_id: u32) -> bool {
    &&& packet.len() == 16
    &&& u64_at(packet, 0) == 0x0417_2710_1980
    &&& u32_at(packet, 8) == 0
    &&& u32_at(packet, 12) == transaction_id
}

/// The number of an event.
pub open spec fn event_number(event: Event) -> int {
    match event {
        Event::Routine => 0,
        Event::Completed => 1,
        Event::Started => 2,
        Event::Stopped => 3,
    }
}

/// Whether a packet is the announce request with these fields, each in its place.
pub open spec fn is_announce_packet(
    packet: Seq<u8>,
    connection_id: u64,
    transaction_id: u32,
    key: u32,
    params: AnnounceParams,
) -> bool {
    &&& packet.len() == 98
    &&& u64_at(packet, 0) == connection_id
    &&& u32_at(packet, 8) == 1
    &&& u32_at(packet, 12) == transaction_id
    &&& packet.subrange(16, 36) == params.info_hash@
    &&& packet.subrange(36, 56) == params.peer_id@
    &&& u64_at(packet, 56) == params.downloaded
    &&& u64_at(packet, 64) == params.left
    &&& u64_at(packet, 72) == params.uploaded
    &&& u32_at(packet, 80) == event_number(params.event)
    &&& u32_at(packet, 84) == 0
    &&& u32_at(packet, 88) == key
    &&& u32_at(packet, 92) == (match params.numwant {
        Some(n) => n as int,
        None => 0xffff_ffff,
    })
    &&& u16_at(packet, 96) == params.port
}

proof fn lemma_connect_packet(transaction_id: u32)
    ensures
        is_connect_packet(connect_request(transaction_id), transaction_id),
{
    let packet = connect_request(transaction_id);
    lemma_be_limits();
    lemma_be_value_of_bytes(0x0417_2710_1980, 8);
    lemma_be_value_of_bytes(0, 4);
    lemma_be_value_of_bytes(transaction_id as nat, 4);
    assert(packet.subrange(0, 8) =~= be_bytes(0x0417_2710_1980, 8));
    assert(packet.subrange(8, 12) =~= be_bytes(0, 4));
    assert(packet.subrange(12, 16) =~= be_bytes(transaction_id as nat, 4));
    lemma_u64_at(packet, 0);
    lemma_u32_at(packet, 8);
    lemma_u32_at(packet, 12);
}

proof fn lemma_announce_packet(
    connection_id: u64,
    transaction_id: u32,
    key: u32,
    params: AnnounceParams,
)
    ensures
        is_announce_packet(
            announce_request(connection_id, transaction_id, key, params),
            connection_id,
            transaction_id,
            key,
            params,
        ),
{
    let packet = announce_request(connection_id, transaction_id, key, params);
    law_announce_request_layout(connection_id, transaction_id, key, params);
    lemma_u64_at(packet, 0);
    lemma_u32_at(packet, 8);
    lemma_u32_at(packet, 12);
    lemma_u64_at(packet, 56);
    lemma_u64_at(packet, 64);
    lemma_u64_at(packet, 72);
    lemma_u32_at(packet, 80);
    lemma_u32_at(packet, 84);
    lemma_u32_at(packet, 88);
    lemma_u32_at(packet, 92);
    lemma_be_value_2(packet.subrange(96, 98));
}

/// The requests have every field in its place, the highest byte first.
pub proof fn law_requests_on_the_wire(
    transaction_id: u32,
    connect: [u8; 16],
    connection_id: u64,
    key: u32,
    params: &AnnounceParams,
    announce: [u8; 98],
)
    requires
        call_ensures(build_connect_request, (transaction_id,), connect),
        call_ensures(
            build_announce_request,
            (connection_id, transaction_id, key, params),
            announce,
        ),
    ensures
        is_connect_packet(connect@, transaction_id),
        is_announce_packet(announce@, connection_id, transaction_id, key, *params),
{
    lemma_connect_packet(transaction_id);
    lemma_announce_packet(connection_id, transaction_id, key, *params);
}

// Replies.

/// Whether a packet is a connect reply to this transaction.
pub open spec fn is_connect_reply(reply: Seq<u8>, transaction_id: u32) -> bool {
    reply.len() >= 16 && u32_at(reply, 0) == 0 && u32_at(reply, 4) == transaction_id
}

/// A connect reply is read just where it answers our request, and gives the connection id in it.
pub proof fn law_connect_replies_are_read(reply: &[u8], transaction_id: u32, result: Result<u64>)
    requires
        call_ensures(parse_connect_response, (reply, transaction_id), result),
    ensures
        result is Ok <==> is_connect_reply(reply@, transaction_id),
        result matches Ok(connection_id) ==> connection_id == u64_at(reply@, 8),
        result matches Err(error) ==> error@ is UdpProtocol,
{
    if reply@.len() >= 16 {
        lemma_u32_at(reply@, 0);
        lemma_u32_at(reply@, 4);
        lemma_u64_at(reply@, 8);
    }
}

/// Whether a packet is an announce reply to this transaction.
pub open spec fn is_announce_reply(reply: Seq<u8>, transaction_id: u32) -> bool {
    &&& reply.len() >= 20
    &&& u32_at(reply, 0) == 1
    &&& u32_at(reply, 4) == transaction_id
    &&& (reply.len() - 20) % 6 == 0
}

/// An announce reply is read just where it answers our request and holds whole peers; it gives the
/// numbers in their places, and all the peers behind them. An error reply hands on its message.
pub proof fn law_announce_replies_are_read(
    reply: &[u8],
    transaction_id: u32,
    result: Result<AnnounceResponse>,
)
    requires
        call_ensures(parse_announce_response, (reply, transaction_id), result),
    ensures
        result is Ok <==> is_announce_reply(reply@, transaction_id),
        result matches Ok(response) ==> {
            &&& response.interval == u32_at(reply@, 8)
            &&& response.leechers matches Some(n) && n == u32_at(reply@, 12)
            &&& response.seeders matches Some(n) && n == u32_at(reply@, 16)
            &&& is_compact(reply@.skip(20), response.peers@)
        },
        reply@.len() >= 8 && u32_at(reply@, 0) == 3 && u32_at(reply@, 4) == transaction_id ==> (
        result matches Err(error) && error@ == Fault::TrackerFailure(lossy_text(reply@.skip(8)))),
        result matches Err(error) ==> error@ is UdpProtocol || error@ is TrackerFailure
            || error@ is InvalidPeersData,
{
    if reply@.len() >= 8 {
        lemma_u32_at(reply@, 0);
        lemma_u32_at(reply@, 4);
    }
    if reply@.len() >= 20 {
        lemma_u32_at(reply@, 8);
        lemma_u32_at(reply@, 12);
        lemma_u32_at(reply@, 16);
        match compact_peers_v4(reply@.skip(20)) {
            Ok(peers) => {
                lemma_compact(reply@.skip(20), peers);
            },
            Err(_) => {},
        }
    }
}

// The exchange.

/// An exchange begins with a connect request.
pub proof fn law_exchanges_begin_with_connect(
    params: AnnounceParams,
    begun: (Exchange, Step),
    connect_txn: u32,
    announce_txn: u32,
    key: u32,
    given: (Exchange, Step),
)
    requires
        call_ensures(Exchange::start, (params,), begun),
        call_ensures(Exchange::with_ids, (params, connect_txn, announce_txn, key), given),
    ensures
        begun.0.params == params,
        begun.0.stage == Stage::Connecting,
        begun.0.attempts == 1,
        begun.1@ matches StepView::Send(packet) && is_connect_packet(packet, begun.0.connect_txn),
        given.0.params == params,
        given.0.connect_txn == connect_txn,
        given.0.announce_txn == announce_txn,
        given.0.key == key,
        given.0.stage == Stage::Connecting,
        given.0.attempts == 1,
        given.1@ matches StepView::Send(packet) && is_connect_packet(packet, connect_txn),
{
    lemma_connect_packet(begun.0.connect_txn);
    lemma_connect_packet(connect_txn);
}

/// The reply to a connect request leads on to the announce request for the connection that it
/// gives; a reply that is none, and the reply to the announce request, end the exchange, the
/// latter with what is read of it.
pub proof fn law_replies_lead_on(
    exchange: &mut Exchange,
    reply: &[u8],
    step: Step,
    parsed: Result<AnnounceResponse>,
)
    requires
        call_ensures(Exchange::on_reply, (exchange, reply), step),
        call_ensures(parse_announce_response, (reply, old(exchange).announce_txn), parsed),
    ensures
        final(exchange).params == old(exchange).params,
        final(exchange).connect_txn == old(exchange).connect_txn,
        final(exchange).announce_txn == old(exchange).announce_txn,
        final(exchange).key == old(exchange).key,
        old(exchange).stage == Stage::Connecting && is_connect_reply(
            reply@,
            old(exchange).connect_txn,
        ) ==> {
            &&& final(exchange).stage matches Stage::Announcing { connection_id }
                && connection_id == u64_at(reply@, 8)
            &&& final(exchange).attempts == 1
            &&& step@ matches StepView::Send(packet) && is_announce_packet(
                packet,
                u64_at(reply@, 8) as u64,
                old(exchange).announce_txn,
                old(exchange).key,
                old(exchange).params,
            )
        },
        old(exchange).stage == Stage::Connecting && !is_connect_reply(
            reply@,
            old(exchange).connect_txn,
        ) ==> (step@ matches StepView::Done(result) && result is Err),
        old(exchange).stage is Announcing ==> {
            &&& *final(exchange) == *old(exchange)
            &&& step@ == StepView::Done(outcome(parsed))
        },
{
    if reply@.len() >= 16 {
        lemma_u32_at(reply@, 0);
        lemma_u32_at(reply@, 4);
        lemma_u64_at(reply@, 8);
        lemma_announce_packet(
            u64_at(reply@, 8) as u64,
            old(exchange).announce_txn,
            old(exchange).key,
            old(exchange).params,
        );
    }
}

/// Without a reply the request of the stage is sent again, up to three times in all, and then the
/// exchange has timed out.
pub proof fn law_requests_are_sent_three_times(exchange: &mut Exchange, step: Step)
    requires
        call_ensures(Exchange::on_timeout, (exchange,), step),
    ensures
        final(exchange).params == old(exchange).params,
        final(exchange).connect_txn == old(exchange).connect_txn,
        final(exchange).announce_txn == old(exchange).announce_txn,
        final(exchange).key == old(exchange).key,
        final(exchange).stage == old(exchange).stage,
        old(exchange).attempts < 3 ==> {
            &&& final(exchange).attempts == old(exchange).attempts + 1
            &&& step@ matches StepView::Send(packet) && match old(exchange).stage {
                Stage::Connecting => is_connect_packet(packet, old(exchange).connect_txn),
                Stage::Announcing { connection_id } => is_announce_packet(
                    packet,
                    connection_id,
                    old(exchange).announce_txn,
                    old(exchange).key,
                    old(exchange).params,
                ),
            }
        },
        old(exchange).attempts >= 3 ==> {
            &&& *final(exchange) == *old(exchange)
            &&& step@ == StepView::Done(Err::<ResponseView, Fault>(Fault::Timeout))
        },
{
    match old(exchange).stage {
        Stage::Connecting => {
            lemma_connect_packet(old(exchange).connect_txn);
        },
        Stage::Announcing { connection_id } => {
            lemma_announce_packet(
                connection_id,
                old(exchange).announce_txn,
                old(exchange).key,
                old(exchange).params,
            );
        },
    }
}

// The search.

/// A search begins with all the trackers untried and no peers.
pub proof fn law_searches_begin_with_all_trackers(trackers: Vec<String>, search: PeerSearch)
    requires
        call_ensures(PeerSearch::new, (trackers,), search),
    ensures
        search@.trackers.len() == trackers@.len(),
        forall|i: int|
            0 <= i < trackers@.len() ==> #[trigger] search@.trackers[i] == trackers@[i]@,
        search@.tried == 0,
        search@.peers.len() == 0,
{
}

/// The trackers are tried one after another, in order, until there are peers or none is left.
pub proof fn law_trackers_are_tried_in_order(search: &mut PeerSearch, url: Option<String>)
    requires
        call_ensures(PeerSearch::next_tracker, (search,), url),
    ensures
        url is Some <==> old(search)@.peers.len() == 0 && old(search)@.tried
            < old(search)@.trackers.len(),
        url matches Some(url) ==> {
            &&& url@ == old(search)@.trackers[old(search)@.tried as int]
            &&& final(search)@.tried == old(search)@.tried + 1
        },
        url is None ==> final(search)@.tried == old(search)@.tried,
        final(search)@.trackers == old(search)@.trackers,
        final(search)@.peers == old(search)@.peers,
{
}

/// The peers that a tracker announces are added behind those that are known, in order and each
/// once: announcing one more adds it just where it is not known yet, and announcing none adds
/// none.
pub proof fn law_new_peers_are_added_in_order(
    search: &mut PeerSearch,
    found: &Vec<PeerAddr>,
    first: (),
    same: &mut PeerSearch,
    longer: &Vec<PeerAddr>,
    second: (),
    peer: PeerAddr,
)
    requires
        call_ensures(PeerSearch::add_peers, (search, found), first),
        call_ensures(PeerSearch::add_peers, (same, longer), second),
        old(same)@ == old(search)@,
        longer@ == found@.push(peer),
    ensures
        found@.len() == 0 ==> final(search)@ == old(search)@,
        final(same)@.peers == (if final(search)@.peers.contains(peer) {
            final(search)@.peers
        } else {
            final(search)@.peers.push(peer)
        }),
        final(search)@.trackers == old(search)@.trackers,
        final(search)@.tried == old(search)@.tried,
{
    assert(longer@.drop_last() =~= found@);
    if found@.len() == 0 {
        assert(final(search)@ =~= old(search)@);
    }
}

proof fn lemma_all_added(items: Seq<PeerAddr>, more: Seq<PeerAddr>)
    ensures
        forall|peer: PeerAddr|
            #[trigger] add_all_new(items, more).contains(peer) <==> items.contains(peer)
                || more.contains(peer),
        items.no_duplicates() ==> add_all_new(items, more).no_duplicates(),
        items.is_prefix_of(add_all_new(items, more)),
    decreases more.len(),
{
    if more.len() > 0 {
        let front = more.drop_last();
        let before = add_all_new(items, front);
        let after = add_all_new(items, more);
        lemma_all_added(items, front);
        assert forall|peer: PeerAddr| #[trigger] after.contains(peer) <==> items.contains(peer)
            || more.contains(peer) by {
            assert(before.contains(peer) <==> items.contains(peer) || front.contains(peer));
            if more.contains(peer) {
                let k = choose|k: int| 0 <= k < more.len() && more[k] == peer;
                if k < front.len() {
                    assert(front[k] == peer);
                }
            }
            if front.contains(peer) {
                let k = choose|k: int| 0 <= k < front.len() && front[k] == peer;
                assert(more[k] == peer);
            }
            assert(more.contains(more.last())) by {
                assert(more[more.len() - 1] == more.last());
            }
            if !before.contains(more.last()) {
                assert(after == before.push(more.last()));
                if before.contains(peer) {
                    let k = choose|k: int| 0 <= k < before.len() && before[k] == peer;
                    assert(after[k] == peer);
                }
                assert(after[before.len() as int] == more.last());
            }
        }
    } else {
        assert(add_all_new(items, more) =~= items);
    }
}

/// A search knows the peers that it knew and those that were announced, no others and none twice,
/// and those that it knew stay in their places.
pub proof fn law_all_announced_peers_are_known(
    search: &mut PeerSearch,
    found: &Vec<PeerAddr>,
    result: (),
)
    requires
        call_ensures(PeerSearch::add_peers, (search, found), result),
    ensures
        forall|peer: PeerAddr|
            #[trigger] final(search)@.peers.contains(peer) <==> old(search)@.peers.contains(peer)
                || found@.contains(peer),
        old(search)@.peers.no_duplicates() ==> final(search)@.peers.no_duplicates(),
        old(search)@.peers.is_prefix_of(final(search)@.peers),
{
    lemma_all_added(old(search)@.peers, found@);
}

/// A search ends with the peers that it knows, or with nothing where it knows none.
pub proof fn law_searches_end_with_their_peers(search: PeerSearch, peers: Option<Vec<PeerAddr>>)
    requires
        call_ensures(PeerSearch::finish, (search,), peers),
    ensures
        peers is Some <==> search@.peers.len() > 0,
        peers matches Some(peers) ==> peers@ == search@.peers,
{
}

} // verus!
