//! A session with one peer, and the download that all sessions share.

use vstd::prelude::*;
use bytes::Bytes;
use crate::buffer::shared;
use crate::digest::sha1_of;
use crate::download::bitfield::{contains_piece, unpack_bits};
use crate::download::piece::Geometry;
use crate::download::session::{
    can_handle, settle, ControlState, Directive, Reaction, ReactionView, Session, SessionView,
};
use crate::download::state::{PieceTracker, TrackerView};
use crate::download::stats::{PeerEntry, StatsView, SwarmStats};
use crate::error::{outcome, Fault, Result};
use crate::laws::pieces::{
    bit_set, has_place, just_holds, lemma_bits, lemma_placed, lemma_present, placed, present,
};
use crate::laws::progress::{
    counted_more, given_back, is_free, is_rarest_free, is_rarest_wanted, is_wanted, lemma_offers,
    newly_claimed, newly_there, only_counts_changed,
};
use crate::peer::message::{BlockInfo, Message, MessageView};

verus! {

/// Whether nothing about a session changed but the pieces that the peer advertised.
pub open spec fn only_advertised_changed(before: SessionView, after: SessionView) -> bool {
    &&& after.geometry == before.geometry
    &&& after.peer_has.len() == before.peer_has.len()
    &&& after.choked == before.choked
    &&& after.current == before.current
    &&& after.next_block == before.next_block
    &&& after.in_flight == before.in_flight
}

/// Whether nothing changed but what is shown of the peer at `addr`, if it is shown at all; then it
/// is shown as `entry`.
pub open spec fn now_shows(
    before: StatsView,
    after: StatsView,
    addr: Seq<char>,
    entry: PeerEntry,
) -> bool {
    &&& forall|other: Seq<char>|
        #![trigger after.peers.dom().contains(other)]
        #![trigger before.peers.dom().contains(other)]
        after.peers.dom().contains(other) == before.peers.dom().contains(other)
    &&& forall|other: Seq<char>|
        #![trigger after.peers[other]]
        before.peers.dom().contains(other) && other != addr ==> after.peers[other]
            == before.peers[other]
    &&& before.peers.dom().contains(addr) ==> after.peers[addr] == entry
}

/// What is shown of a peer once it has so many pieces.
pub open spec fn shown_with(entry: PeerEntry, pieces: Seq<bool>) -> PeerEntry {
    PeerEntry {
        choked: entry.choked,
        have_pieces: (present(pieces).len() % 0x1_0000_0000) as u32,
        downloaded: entry.downloaded,
    }
}

/// A peer's bitfield is counted: for each piece whose bit is set one more peer has it, and for no
/// other piece; the session knows from then on what the peer has. A bitfield of another size
/// breaks the protocol and changes nothing.
pub proof fn law_bitfields_are_counted(
    session: &mut Session,
    message: Message,
    addr: &str,
    tracker: &mut PieceTracker,
    stats: &mut SwarmStats,
    result: Result<Reaction>,
    bits: Seq<u8>,
)
    requires
        call_ensures(Session::on_message, (session, message, addr, tracker, stats), result),
        message@ == MessageView::Bitfield(bits),
        old(session)@.consistent(),
        old(tracker)@.availability.len() == old(session)@.geometry.num_pieces,
        forall|i: int|
            0 <= i < old(tracker)@.availability.len() && bit_set(bits, i)
                ==> #[trigger] old(tracker)@.availability[i] < u32::MAX,
    ensures
        just_holds(bits.len(), old(session)@.geometry.num_pieces) ==> {
            &&& result matches Ok(reaction) && !reaction.complete && reaction.piece is None
            &&& only_counts_changed(old(tracker)@, final(tracker)@)
            &&& counted_more(
                old(tracker)@.availability,
                final(tracker)@.availability,
                |i: int| bit_set(bits, i),
            )
            &&& only_advertised_changed(old(session)@, final(session)@)
            &&& forall|i: int|
                0 <= i < old(session)@.geometry.num_pieces
                    ==> #[trigger] final(session)@.peer_has[i] == bit_set(bits, i)
            &&& final(stats)@.total_downloaded == old(stats)@.total_downloaded
            &&& now_shows(
                old(stats)@,
                final(stats)@,
                addr@,
                shown_with(old(stats)@.peers[addr@], final(session)@.peer_has),
            )
        },
        !just_holds(bits.len(), old(session)@.geometry.num_pieces) ==> {
            &&& result matches Err(error) && error@ is PeerProtocol
            &&& final(tracker)@ == old(tracker)@
            &&& final(session)@ == old(session)@
            &&& final(stats)@ == old(stats)@
        },
{
    let n = old(session)@.geometry.num_pieces;
    lemma_bits(bits, n);
    lemma_present(final(session)@.peer_has);
    if just_holds(bits.len(), n) {
        assert forall|i: int| 0 <= i < n implies #[trigger] final(session)@.peer_has[i] == bit_set(
            bits,
            i,
        ) by {
            assert(unpack_bits(bits, n)[i] == bit_set(bits, i));
        }
        assert forall|i: int| 0 <= i < n implies #[trigger] final(tracker)@.availability[i]
            == old(tracker)@.availability[i] + if bit_set(bits, i) {
            1int
        } else {
            0int
        } by {
            assert(unpack_bits(bits, n)[i] == bit_set(bits, i));
            assert(old(tracker)@.availability[i] <= u32::MAX);
        }
    }
}

/// A piece that a peer says it has is counted once, for that piece alone, and the session knows of
/// it; a piece that the torrent does not have changes nothing of that.
pub proof fn law_haves_are_counted(
    session: &mut Session,
    message: Message,
    addr: &str,
    tracker: &mut PieceTracker,
    stats: &mut SwarmStats,
    result: Result<Reaction>,
    index: u32,
)
    requires
        call_ensures(Session::on_message, (session, message, addr, tracker, stats), result),
        message@ == MessageView::Have(index),
        old(session)@.consistent(),
        old(tracker)@.availability.len() == old(session)@.geometry.num_pieces,
        index < old(tracker)@.availability.len() ==> old(tracker)@.availability[index as int]
            < u32::MAX,
    ensures
        result matches Ok(reaction) && !reaction.complete && reaction.piece is None,
        only_counts_changed(old(tracker)@, final(tracker)@),
        counted_more(
            old(tracker)@.availability,
            final(tracker)@.availability,
            |i: int| i == index,
        ),
        only_advertised_changed(old(session)@, final(session)@),
        forall|i: int|
            0 <= i < old(session)@.geometry.num_pieces ==> (#[trigger] final(session)@.peer_has[i]
                <==> i == index || old(session)@.peer_has[i]),
        final(stats)@.total_downloaded == old(stats)@.total_downloaded,
        now_shows(
            old(stats)@,
            final(stats)@,
            addr@,
            shown_with(old(stats)@.peers[addr@], final(session)@.peer_has),
        ),
{
    lemma_present(final(session)@.peer_has);
}

/// Whether a session has no piece in work any more and is otherwise what it was.
pub open spec fn gave_up(before: SessionView, after: SessionView) -> bool {
    &&& after.geometry == before.geometry
    &&& after.peer_has == before.peer_has
    &&& after.current is None
    &&& before.current is Some ==> after.next_block == 0 && after.in_flight == 0
    &&& before.current is None ==> after.next_block == before.next_block && after.in_flight
        == before.in_flight
}

/// Whether the piece that a session worked on, if any, is claimed no longer, and nothing else
/// changed.
pub open spec fn freed(session: SessionView, before: TrackerView, after: TrackerView) -> bool {
    match session.current {
        Some(piece) => given_back(before, after, piece.index as int),
        None => after == before,
    }
}

/// A peer that chokes us is asked for nothing more: its piece is given back, and it is shown as
/// choking. When it stops choking us, that is noted and nothing else.
pub proof fn law_chokes_give_the_piece_back(
    session: &mut Session,
    message: Message,
    addr: &str,
    tracker: &mut PieceTracker,
    stats: &mut SwarmStats,
    result: Result<Reaction>,
)
    requires
        call_ensures(Session::on_message, (session, message, addr, tracker, stats), result),
        message@ is Choke || message@ is Unchoke,
    ensures
        result matches Ok(reaction) && !reaction.complete && reaction.piece is None,
        final(session)@.choked <==> message@ is Choke,
        message@ is Choke ==> {
            &&& gave_up(old(session)@, final(session)@)
            &&& freed(old(session)@, old(tracker)@, final(tracker)@)
        },
        message@ is Unchoke ==> {
            &&& final(session)@ == (SessionView { choked: false, ..old(session)@ })
            &&& final(tracker)@ == old(tracker)@
        },
        final(stats)@.total_downloaded == old(stats)@.total_downloaded,
        now_shows(
            old(stats)@,
            final(stats)@,
            addr@,
            PeerEntry { choked: message@ is Choke, ..old(stats)@.peers[addr@] },
        ),
{
}

/// What a peer wants of us, and what keeps the connection open, changes nothing.
pub proof fn law_other_messages_change_nothing(
    session: &mut Session,
    message: Message,
    addr: &str,
    tracker: &mut PieceTracker,
    stats: &mut SwarmStats,
    result: Result<Reaction>,
)
    requires
        call_ensures(Session::on_message, (session, message, addr, tracker, stats), result),
        message@ is KeepAlive || message@ is Interested || message@ is NotInterested
            || message@ is Request || message@ is Cancel || message@ is Port,
    ensures
        result matches Ok(reaction) && !reaction.complete && reaction.piece is None,
        final(session)@ == old(session)@,
        final(tracker)@ == old(tracker)@,
        final(stats)@ == old(stats)@,
{
}

/// Whether every piece is there.
pub open spec fn has_all(have: Seq<bool>) -> bool {
    forall|i: int| 0 <= i < have.len() ==> #[trigger] have[i]
}

/// Whether a whole piece with this digest is dealt with as it should be: dropped where we have it,
/// kept and reported where its digest is the expected one, and else free to be fetched again. The
/// download is reported as complete just where no piece is missing then.
pub open spec fn is_settled(
    before: TrackerView,
    after: TrackerView,
    index: u32,
    data: Seq<u8>,
    digest: Seq<u8>,
    reaction: ReactionView,
) -> bool {
    let at = index as int;
    if at < before.have.len() && before.have[at] {
        &&& after == before
        &&& reaction.piece is None
        &&& reaction.complete <==> has_all(after.have)
    } else if at < before.hashes.len() && digest == before.hashes[at] {
        &&& newly_there(before, after, at)
        &&& reaction.piece == Some((index, data))
        &&& reaction.complete <==> has_all(after.have)
    } else {
        &&& given_back(before, after, at)
        &&& reaction.piece is None
        &&& !reaction.complete
    }
}

/// A whole piece is kept and reported just where it is new and its digest is the expected one.
pub proof fn law_whole_pieces_are_settled(
    tracker: &mut PieceTracker,
    index: u32,
    data: Bytes,
    digest: &[u8; 20],
    reaction: Reaction,
)
    requires
        old(tracker)@.consistent(),
        call_ensures(settle, (tracker, index, data, digest), reaction),
    ensures
        is_settled(
            old(tracker)@,
            final(tracker)@,
            index,
            shared(data),
            digest@,
            reaction@,
        ),
{
}

/// Whether a delivered block is dealt with as it should be. One of another piece is passed over;
/// one that has no place in the piece, or does not fill its place, breaks the protocol. Any other
/// is put into place, and where no block is missing then, the piece is settled.
pub open spec fn is_taken(
    session: SessionView,
    after: SessionView,
    tracker: TrackerView,
    tracker_after: TrackerView,
    index: u32,
    begin: u32,
    data: Seq<u8>,
    outcome: std::result::Result<ReactionView, Fault>,
) -> bool {
    match session.current {
        Some(piece) if piece.index == index => {
            let length = piece.data.len() as int;
            let fits = has_place(begin as int, data.len() as int, length);
            let fills = data.len() >= 16384 || begin + data.len() >= length;
            if !fits || (!piece.received[begin as int / 16384] && !fills) {
                &&& outcome matches Err(fault) && fault is PeerProtocol
                &&& after == session
                &&& tracker_after == tracker
            } else {
                let now = placed(piece, begin as int, data);
                &&& outcome is Ok
                &&& after.geometry == session.geometry
                &&& after.peer_has == session.peer_has
                &&& after.choked == session.choked
                &&& after.next_block == session.next_block
                &&& after.in_flight == (if session.in_flight > 0 {
                    session.in_flight - 1
                } else {
                    0
                })
                &&& if has_all(now.received) {
                    &&& after.current is None
                    &&& is_settled(
                        tracker,
                        tracker_after,
                        index,
                        now.data,
                        sha1_of(now.data),
                        outcome->Ok_0,
                    )
                } else {
                    &&& after.current == Some(now)
                    &&& tracker_after == tracker
                    &&& outcome == Ok::<ReactionView, Fault>(
                        ReactionView { complete: false, piece: None },
                    )
                }
            }
        },
        _ => {
            &&& outcome == Ok::<ReactionView, Fault>(
                ReactionView { complete: false, piece: None },
            )
            &&& after == session
            &&& tracker_after == tracker
        },
    }
}

/// A delivered block is counted, whatever comes of it, and put into place where it belongs; a piece
/// that is whole with it is kept and reported just where it is new and has the expected digest.
pub proof fn law_blocks_are_taken(
    session: &mut Session,
    message: Message,
    addr: &str,
    tracker: &mut PieceTracker,
    stats: &mut SwarmStats,
    result: Result<Reaction>,
    index: u32,
    begin: u32,
    data: Seq<u8>,
)
    requires
        call_ensures(Session::on_message, (session, message, addr, tracker, stats), result),
        message@ == (MessageView::Piece { index, begin, data }),
        old(session)@.consistent(),
        old(tracker)@.consistent(),
        data.len() <= u64::MAX,
        old(stats)@.peers.dom().contains(addr@) ==> old(stats)@.peers[addr@].downloaded
            + data.len() <= u64::MAX,
    ensures
        is_taken(
            old(session)@,
            final(session)@,
            old(tracker)@,
            final(tracker)@,
            index,
            begin,
            data,
            outcome(result),
        ),
        final(stats)@.total_downloaded == (old(stats)@.total_downloaded + data.len())
            % 0x1_0000_0000_0000_0000,
        now_shows(
            old(stats)@,
            final(stats)@,
            addr@,
            PeerEntry {
                downloaded: (old(stats)@.peers[addr@].downloaded + data.len()) as u64,
                ..old(stats)@.peers[addr@]
            },
        ),
{
    match old(session)@.current {
        Some(piece) => {
            if piece.index == index && has_place(
                begin as int,
                data.len() as int,
                piece.data.len() as int,
            ) {
                lemma_placed(piece, begin, data);
            }
        },
        None => {},
    }
}

// Rarest first, by what the peers said.

/// How many of the adverts, each a set of pieces, name piece `i`.
pub open spec fn times_advertised(adverts: Seq<Set<int>>, i: int) -> nat
    decreases adverts.len(),
{
    if adverts.len() == 0 {
        0
    } else {
        times_advertised(adverts.drop_last(), i) + if adverts.last().contains(i) {
            1nat
        } else {
            0nat
        }
    }
}

/// Whether each piece is counted as often as it was advertised.
pub open spec fn counts_adverts(tracker: TrackerView, adverts: Seq<Set<int>>) -> bool {
    forall|i: int|
        0 <= i < tracker.availability.len() ==> #[trigger] tracker.availability[i]
            == times_advertised(adverts, i)
}

/// The pieces that a message advertises: those whose bit is set in a bitfield, and the one that a
/// peer says it has.
pub open spec fn advert(message: MessageView) -> Set<int> {
    match message {
        MessageView::Bitfield(bits) => Set::new(
            |i: int| 0 <= i < 8 * bits.len() && bit_set(bits, i),
        ),
        MessageView::Have(index) => Set::new(|i: int| i == index),
        _ => Set::empty(),
    }
}

proof fn lemma_times_advertised(adverts: Seq<Set<int>>, i: int)
    ensures
        times_advertised(adverts, i) <= adverts.len(),
    decreases adverts.len(),
{
    if adverts.len() > 0 {
        lemma_times_advertised(adverts.drop_last(), i);
    }
}

/// Each piece stays counted as often as the peers' messages advertised it, whatever message comes
/// next. (Where there were fewer messages than the counts can hold.)
pub proof fn law_counts_follow_what_peers_advertise(
    session: &mut Session,
    message: Message,
    addr: &str,
    tracker: &mut PieceTracker,
    stats: &mut SwarmStats,
    result: Result<Reaction>,
    adverts: Seq<Set<int>>,
)
    requires
        call_ensures(Session::on_message, (session, message, addr, tracker, stats), result),
        old(session)@.consistent(),
        old(tracker)@.consistent(),
        old(tracker)@.availability.len() == old(session)@.geometry.num_pieces,
        adverts.len() < u32::MAX,
        counts_adverts(old(tracker)@, adverts),
    ensures
        result is Ok ==> counts_adverts(final(tracker)@, adverts.push(advert(message@))),
        result is Err ==> counts_adverts(final(tracker)@, adverts),
{
    let n = old(session)@.geometry.num_pieces;
    let more = adverts.push(advert(message@));
    assert(more.drop_last() =~= adverts);
    assert forall|i: int| 0 <= i < n implies times_advertised(more, i)
        == #[trigger] old(tracker)@.availability[i] + if advert(message@).contains(i) {
        1int
    } else {
        0int
    } by {
        assert(more.last() == advert(message@));
    }
    assert forall|i: int| 0 <= i < n implies #[trigger] old(tracker)@.availability[i]
        < u32::MAX by {
        lemma_times_advertised(adverts, i);
    }
    match message@ {
        MessageView::Bitfield(bits) => {
            law_bitfields_are_counted(session, message, addr, tracker, stats, result, bits);
            if just_holds(bits.len(), n) {
                assert forall|i: int| 0 <= i < n implies #[trigger] final(tracker)@.availability[i]
                    == times_advertised(more, i) by {
                    assert(old(tracker)@.availability[i] < u32::MAX);
                    assert(advert(message@).contains(i) == bit_set(bits, i));
                }
            }
        },
        MessageView::Have(index) => {
            law_haves_are_counted(session, message, addr, tracker, stats, result, index);
            assert forall|i: int| 0 <= i < n implies #[trigger] final(tracker)@.availability[i]
                == times_advertised(more, i) by {
                assert(old(tracker)@.availability[i] < u32::MAX);
            }
        },
        _ => {
            assert(final(tracker)@.availability == old(tracker)@.availability);
            assert forall|i: int| 0 <= i < n implies #[trigger] final(tracker)@.availability[i]
                == times_advertised(more, i) by {
                assert(old(tracker)@.availability[i] < u32::MAX);
            }
        },
    }
}

/// Whether a session works on piece `index` and has nothing of it yet, and is otherwise what it
/// was.
pub open spec fn took_up(before: SessionView, after: SessionView, index: int) -> bool {
    let length = if index + 1 == before.geometry.num_pieces {
        before.geometry.last_piece_length
    } else {
        before.geometry.piece_length
    };
    &&& after.geometry == before.geometry
    &&& after.peer_has == before.peer_has
    &&& after.choked == before.choked
    &&& after.next_block == 0
    &&& after.in_flight == 0
    &&& after.current matches Some(piece) && {
        &&& piece.index == index
        &&& piece.data.len() == length
        &&& (piece.received.len() - 1) * 16384 < length <= piece.received.len() * 16384
        &&& forall|b: int| 0 <= b < piece.received.len() ==> !#[trigger] piece.received[b]
    }
}

/// Whether a session looked for work as it should: not while it has a piece in work or is choked;
/// else it takes up the rarest piece that the peer has, that is missing and that nobody works on,
/// and claims it; where there is none, and the download is not complete, the rarest one that is
/// missing.
pub open spec fn looked_for_work(
    session: SessionView,
    after: SessionView,
    tracker: TrackerView,
    tracker_after: TrackerView,
    complete: bool,
) -> bool {
    if session.current is Some || session.choked {
        &&& !complete
        &&& after == session
        &&& tracker_after == tracker
    } else if exists|i: int| is_free(tracker, session.peer_has, i) {
        &&& !complete
        &&& after.current is Some
        &&& is_rarest_free(tracker, session.peer_has, after.current->0.index as int)
        &&& took_up(session, after, after.current->0.index as int)
        &&& newly_claimed(tracker, tracker_after, after.current->0.index as int)
    } else if has_all(tracker.have) {
        &&& complete
        &&& after == session
        &&& tracker_after == tracker
    } else if exists|i: int| is_wanted(tracker, session.peer_has, i) {
        &&& !complete
        &&& after.current is Some
        &&& is_rarest_wanted(tracker, session.peer_has, after.current->0.index as int)
        &&& took_up(session, after, after.current->0.index as int)
        &&& tracker_after == tracker
    } else {
        &&& !complete
        &&& after == session
        &&& tracker_after == tracker
    }
}

/// An idle session that is not choked takes up the rarest piece that it can get.
pub proof fn law_sessions_claim_the_rarest(
    session: &mut Session,
    tracker: &mut PieceTracker,
    complete: bool,
)
    requires
        old(session)@.consistent(),
        old(tracker)@.consistent(),
        call_ensures(Session::claim, (session, tracker), complete),
    ensures
        looked_for_work(
            old(session)@,
            final(session)@,
            old(tracker)@,
            final(tracker)@,
            complete,
        ),
{
    lemma_offers(old(tracker)@, old(session)@.peer_has);
    let peer_has = old(session)@.peer_has;
    let free = exists|i: int| is_free(old(tracker)@, peer_has, i);
    let wanted = exists|i: int| is_wanted(old(tracker)@, peer_has, i);
    assert(free <==> old(tracker)@.offer(peer_has, true) is Some);
    assert(wanted <==> old(tracker)@.offer(peer_has, false) is Some);
}

/// What a session takes up is advertised by no more messages than any other piece that it could
/// have claimed.
pub proof fn law_the_least_advertised_piece_is_claimed(
    session: &mut Session,
    tracker: &mut PieceTracker,
    complete: bool,
    adverts: Seq<Set<int>>,
    other: int,
)
    requires
        old(session)@.consistent(),
        old(tracker)@.consistent(),
        counts_adverts(old(tracker)@, adverts),
        old(session)@.current is None,
        !old(session)@.choked,
        is_free(old(tracker)@, old(session)@.peer_has, other),
        call_ensures(Session::claim, (session, tracker), complete),
    ensures
        final(session)@.current matches Some(piece) && {
            &&& is_free(old(tracker)@, old(session)@.peer_has, piece.index as int)
            &&& times_advertised(adverts, piece.index as int) <= times_advertised(adverts, other)
        },
{
    law_sessions_claim_the_rarest(session, tracker, complete);
    let index = final(session)@.current->0.index as int;
    assert(old(tracker)@.availability[index] == times_advertised(adverts, index));
    assert(old(tracker)@.availability[other] == times_advertised(adverts, other));
}

// Requests.

/// The pipeline is filled with requests for the next blocks of the current piece, in order and
/// without gaps, until five are on their way or every block was asked for; a peer that chokes us,
/// or has no piece in work, is asked for nothing.
pub proof fn law_the_next_blocks_are_requested(session: &mut Session, requests: Vec<BlockInfo>)
    requires
        old(session)@.consistent(),
        call_ensures(Session::refill, (session,), requests),
    ensures
        final(session)@.geometry == old(session)@.geometry,
        final(session)@.peer_has == old(session)@.peer_has,
        final(session)@.choked == old(session)@.choked,
        final(session)@.current == old(session)@.current,
        final(session)@.next_block == old(session)@.next_block + requests@.len(),
        final(session)@.in_flight == old(session)@.in_flight + requests@.len(),
        old(session)@.choked || old(session)@.current is None ==> requests@.len() == 0,
        old(session)@.current matches Some(piece) ==> {
            let length = piece.data.len();
            &&& !old(session)@.choked ==> final(session)@.in_flight == 5
                || final(session)@.next_block * 16384 >= length
            &&& final(session)@.in_flight <= 5
            &&& forall|k: int|
                0 <= k < requests@.len() ==> {
                    let request = #[trigger] requests@[k];
                    &&& request.index == piece.index
                    &&& request.begin == (old(session)@.next_block + k) * 16384
                    &&& request.begin < length
                    &&& request.length == (if length - request.begin < 16384 {
                        length - request.begin
                    } else {
                        16384
                    })
                }
        },
{
}

// The life of a session.

/// A new session knows of no piece that the peer has and is choked, with nothing in work.
pub proof fn law_sessions_begin_choked(geometry: Geometry, session: Session)
    requires
        call_ensures(Session::new, (geometry,), session),
    ensures
        session@.geometry == geometry@,
        session@.peer_has.len() == geometry@.num_pieces,
        forall|i: int| 0 <= i < geometry@.num_pieces ==> !#[trigger] session@.peer_has[i],
        session@.choked,
        session@.current is None,
        session@.next_block == 0,
        session@.in_flight == 0,
{
}

/// A session tells which piece it works on, and waits just where blocks of it are on their way.
pub proof fn law_sessions_tell_their_work(session: &Session, index: Option<u32>, waiting: bool)
    requires
        call_ensures(Session::current_piece, (session,), index),
        call_ensures(Session::is_waiting, (session,), waiting),
    ensures
        index is Some <==> session@.current is Some,
        index matches Some(index) ==> session@.current->0.index == index,
        waiting <==> index is Some && session@.in_flight > 0,
{
}

/// A session goes on only while the download runs: when it is paused it waits, when it is
/// cancelled it stops, and either way its piece is free for others.
pub proof fn law_sessions_obey_the_control(
    session: &mut Session,
    state: ControlState,
    tracker: &mut PieceTracker,
    directive: Directive,
)
    requires
        call_ensures(Session::on_control, (session, state, tracker), directive),
    ensures
        directive == Directive::Proceed <==> state == ControlState::Running,
        directive == Directive::Wait <==> state == ControlState::Paused,
        directive == Directive::Stop <==> state == ControlState::Cancelled,
        state == ControlState::Running ==> final(session)@ == old(session)@ && final(tracker)@
            == old(tracker)@,
        state != ControlState::Running ==> {
            &&& gave_up(old(session)@, final(session)@)
            &&& final(session)@.choked == old(session)@.choked
            &&& freed(old(session)@, old(tracker)@, final(tracker)@)
        },
{
}

/// A session whose blocks do not come, or whose peer is gone, gives its piece back.
pub proof fn law_lost_pieces_are_given_back(
    session: &mut Session,
    tracker: &mut PieceTracker,
    timed_out: (),
    closing: &mut Session,
    others: &mut PieceTracker,
    closed: (),
)
    requires
        call_ensures(Session::on_timeout, (session, tracker), timed_out),
        call_ensures(Session::on_closed, (closing, others), closed),
    ensures
        gave_up(
            SessionView { next_block: 0, in_flight: 0, ..old(session)@ },
            final(session)@,
        ),
        final(session)@.choked == old(session)@.choked,
        freed(old(session)@, old(tracker)@, final(tracker)@),
        gave_up(old(closing)@, final(closing)@),
        final(closing)@.choked == old(closing)@.choked,
        freed(old(closing)@, old(others)@, final(others)@),
{
}

/// A message can be handled just where no count would overflow: those of the pieces that it
/// advertises, and that of the peer's bytes.
pub proof fn law_messages_that_can_be_handled(
    session: &Session,
    message: &Message,
    addr: &str,
    tracker: &PieceTracker,
    stats: &SwarmStats,
    ok: bool,
)
    requires
        session@.consistent(),
        call_ensures(Session::can_handle, (session, message, addr, tracker, stats), ok),
        tracker@.availability.len() == session@.geometry.num_pieces,
    ensures
        message@ matches MessageView::Have(index) ==> (ok <==> index >= tracker@.availability.len()
            || tracker@.availability[index as int] < u32::MAX),
        message@ matches MessageView::Bitfield(bits) ==> (ok <==> !just_holds(
            bits.len(),
            session@.geometry.num_pieces,
        ) || forall|i: int|
            0 <= i < tracker@.availability.len() && bit_set(bits, i)
                ==> #[trigger] tracker@.availability[i] < u32::MAX),
        message@ matches MessageView::Piece { index, begin, data } ==> (ok <==> data.len()
            <= u64::MAX && (stats@.peers.dom().contains(addr@) ==> stats@.peers[addr@].downloaded
            + data.len() <= u64::MAX)),
        !(message@ is Have || message@ is Bitfield || message@ is Piece) ==> ok,
{
    match message@ {
        MessageView::Bitfield(bits) => {
            let n = session@.geometry.num_pieces;
            lemma_bits(bits, n);
            if just_holds(bits.len(), n) {
                assert forall|i: int| 0 <= i < n implies #[trigger] contains_piece(
                    unpack_bits(bits, n),
                    i,
                ) == bit_set(bits, i) by {
                    assert(unpack_bits(bits, n)[i] == bit_set(bits, i));
                }
                if tracker@.has_room(unpack_bits(bits, n)) {
                    assert forall|i: int| 0 <= i < n && bit_set(bits, i) implies
                        #[trigger] tracker@.availability[i] < u32::MAX by {
                        assert(contains_piece(unpack_bits(bits, n), i));
                    }
                }
                if forall|i: int|
                    0 <= i < tracker@.availability.len() && bit_set(bits, i)
                        ==> #[trigger] tracker@.availability[i] < u32::MAX {
                    assert(tracker@.has_room(unpack_bits(bits, n)));
                }
            }
        },
        _ => {},
    }
}

} // verus!
