//! Which pieces we have, how rare each one is, and who works on which.

use vstd::prelude::*;
use crate::digest::sha1_of;
use crate::download::bitfield::Bitfield;
use crate::download::state::{law_reservation_is_rarest_first, PieceTracker, TrackerView};
use crate::error::Result;
use crate::metainfo::{Info, SHA1_LEN};

verus! {

/// A new tracker has one piece for each digest of the torrent, with that digest byte for byte; none
/// of them is there, none is claimed, and no peer has advertised any. There is a tracker just
/// where `pieces` is a whole number of digests.
pub proof fn law_trackers_begin_empty(info: &Info, result: Result<PieceTracker>)
    requires
        call_ensures(PieceTracker::from_info, (info,), result),
    ensures
        result is Ok <==> info@.pieces.len() % 20 == 0,
        result matches Ok(tracker) ==> {
            &&& tracker@.consistent()
            &&& tracker@.hashes.len() * 20 == info@.pieces.len()
            &&& forall|i: int, k: int|
                0 <= i < tracker@.hashes.len() && 0 <= k < 20 ==> #[trigger] tracker@.hashes[i][k]
                    == info@.pieces[20 * i + k]
            &&& forall|i: int|
                0 <= i < tracker@.hashes.len() ==> {
                    &&& #[trigger] tracker@.hashes[i].len() == 20
                    &&& !tracker@.have[i]
                    &&& !tracker@.claimed[i]
                    &&& tracker@.availability[i] == 0
                }
        },
        result matches Err(error) ==> error@ is InvalidPiecesLength,
{
}

/// A piece is there just where it is marked so, the download is complete just where none is
/// missing, and the counts tell whether one more peer can be counted.
pub proof fn law_progress_is_told(
    tracker: &PieceTracker,
    n: usize,
    complete: bool,
    index: u32,
    present: bool,
    at: usize,
    can_add: bool,
)
    requires
        tracker@.consistent(),
        call_ensures(PieceTracker::num_pieces, (tracker,), n),
        call_ensures(PieceTracker::is_complete, (tracker,), complete),
        call_ensures(PieceTracker::has, (tracker, index), present),
        call_ensures(PieceTracker::can_add, (tracker, at), can_add),
    ensures
        n == tracker@.have.len(),
        complete <==> forall|i: int| 0 <= i < n ==> #[trigger] tracker@.have[i],
        present <==> index < n && tracker@.have[index as int],
        can_add <==> at >= n || tracker@.availability[at as int] < u32::MAX,
{
}

/// Whether nothing but the counts of peers changed.
pub open spec fn only_counts_changed(before: TrackerView, after: TrackerView) -> bool {
    &&& after.hashes == before.hashes
    &&& after.have == before.have
    &&& after.claimed == before.claimed
    &&& after.availability.len() == before.availability.len()
}

/// Whether nothing but the claims changed.
pub open spec fn only_claims_changed(before: TrackerView, after: TrackerView) -> bool {
    &&& after.hashes == before.hashes
    &&& after.have == before.have
    &&& after.availability == before.availability
    &&& after.claimed.len() == before.claimed.len()
}

/// Whether one more peer is counted for just the pieces of which `adds` is true.
pub open spec fn counted_more(
    before: Seq<u32>,
    after: Seq<u32>,
    adds: spec_fn(int) -> bool,
) -> bool {
    &&& after.len() == before.len()
    &&& forall|i: int|
        0 <= i < before.len() ==> #[trigger] after[i] == before[i] + if adds(i) {
            1int
        } else {
            0int
        }
}

/// One more peer that has a piece is counted for that piece and no other.
pub proof fn law_one_advertised_piece_is_counted(
    tracker: &mut PieceTracker,
    index: usize,
    result: (),
)
    requires
        call_ensures(PieceTracker::add_availability, (tracker, index), result),
        forall|i: int|
            0 <= i < old(tracker)@.availability.len() ==> i != index
                || #[trigger] old(tracker)@.availability[i] < u32::MAX,
    ensures
        only_counts_changed(old(tracker)@, final(tracker)@),
        counted_more(
            old(tracker)@.availability,
            final(tracker)@.availability,
            |i: int| i == index,
        ),
{
}

/// One more peer is counted for each of the pieces that it has, and for no other; room for that is
/// told truly.
pub proof fn law_advertised_pieces_are_counted(
    tracker: &mut PieceTracker,
    bitfield: &Bitfield,
    result: (),
    probe: &PieceTracker,
    room: bool,
)
    requires
        call_ensures(PieceTracker::add_bitfield_availability, (tracker, bitfield), result),
        call_ensures(PieceTracker::has_room, (probe, bitfield), room),
        probe@ == old(tracker)@,
    ensures
        room <==> forall|i: int|
            0 <= i < old(tracker)@.availability.len() && i < bitfield@.len() && bitfield@[i]
                ==> #[trigger] old(tracker)@.availability[i] < u32::MAX,
        only_counts_changed(old(tracker)@, final(tracker)@),
        room ==> counted_more(
            old(tracker)@.availability,
            final(tracker)@.availability,
            |i: int| i < bitfield@.len() && bitfield@[i],
        ),
{
    let before = old(tracker)@;
    assert(room <==> before.has_room(bitfield@));
    if forall|i: int|
        0 <= i < before.availability.len() && i < bitfield@.len() && bitfield@[i]
            ==> #[trigger] before.availability[i] < u32::MAX {
        assert(before.has_room(bitfield@));
    }
}

/// A peer that leaves is counted no longer: one less for each of its pieces, down to none, and
/// every other count stays.
pub proof fn law_peers_that_leave_are_not_counted(
    tracker: &mut PieceTracker,
    bitfield: &Bitfield,
    result: (),
)
    requires
        call_ensures(PieceTracker::remove_bitfield_availability, (tracker, bitfield), result),
    ensures
        only_counts_changed(old(tracker)@, final(tracker)@),
        forall|i: int|
            0 <= i < old(tracker)@.availability.len() ==> {
                let was = old(tracker)@.availability[i];
                let has = i < bitfield@.len() && bitfield@[i];
                #[trigger] final(tracker)@.availability[i] == if has && was > 0 {
                    was - 1
                } else {
                    was as int
                }
            },
{
}

/// Whether piece `i` is missing and the peer has it.
pub open spec fn is_wanted(tracker: TrackerView, peer_has: Seq<bool>, i: int) -> bool {
    0 <= i < tracker.have.len() && i < peer_has.len() && !tracker.have[i] && peer_has[i]
}

/// Whether piece `i` is wanted and nobody works on it.
pub open spec fn is_free(tracker: TrackerView, peer_has: Seq<bool>, i: int) -> bool {
    is_wanted(tracker, peer_has, i) && !tracker.claimed[i]
}

/// Whether piece `index`, and no other, is newly claimed.
pub open spec fn newly_claimed(before: TrackerView, after: TrackerView, index: int) -> bool {
    &&& only_claims_changed(before, after)
    &&& 0 <= index < before.claimed.len()
    &&& forall|i: int|
        0 <= i < before.claimed.len() ==> (#[trigger] after.claimed[i] <==> i == index
            || before.claimed[i])
}

/// Whether piece `index`, and no other, is claimed no longer.
pub open spec fn given_back(before: TrackerView, after: TrackerView, index: int) -> bool {
    &&& only_claims_changed(before, after)
    &&& forall|i: int|
        0 <= i < before.claimed.len() ==> (#[trigger] after.claimed[i] <==> i != index
            && before.claimed[i])
}

/// Whether `index` is the rarest of the free pieces, the first of them where several are equally
/// rare.
pub open spec fn is_rarest_free(tracker: TrackerView, peer_has: Seq<bool>, index: int) -> bool {
    &&& is_free(tracker, peer_has, index)
    &&& forall|i: int|
        #[trigger] is_free(tracker, peer_has, i) ==> tracker.availability[index]
            <= tracker.availability[i]
    &&& forall|i: int|
        #[trigger] is_free(tracker, peer_has, i) && i < index ==> tracker.availability[index]
            < tracker.availability[i]
}

/// Whether `index` is the rarest of the wanted pieces, the first of them where several are equally
/// rare.
pub open spec fn is_rarest_wanted(tracker: TrackerView, peer_has: Seq<bool>, index: int) -> bool {
    &&& is_wanted(tracker, peer_has, index)
    &&& forall|i: int|
        #[trigger] is_wanted(tracker, peer_has, i) ==> tracker.availability[index]
            <= tracker.availability[i]
    &&& forall|i: int|
        #[trigger] is_wanted(tracker, peer_has, i) && i < index ==> tracker.availability[index]
            < tracker.availability[i]
}

pub(crate) proof fn lemma_offers(tracker: TrackerView, peer_has: Seq<bool>)
    requires
        tracker.consistent(),
        peer_has.len() <= 0x1_0000_0000,
    ensures
        match tracker.offer(peer_has, true) {
            Some(index) => is_rarest_free(tracker, peer_has, index as int),
            None => forall|i: int| !#[trigger] is_free(tracker, peer_has, i),
        },
        match tracker.offer(peer_has, false) {
            Some(index) => is_rarest_wanted(tracker, peer_has, index as int),
            None => forall|i: int| !#[trigger] is_wanted(tracker, peer_has, i),
        },
{
    law_reservation_is_rarest_first(tracker, peer_has, true);
    law_reservation_is_rarest_first(tracker, peer_has, false);
    assert forall|i: int| #[trigger] is_free(tracker, peer_has, i) implies tracker.eligible(
        peer_has,
        true,
        i,
    ) by {}
    assert forall|i: int| #[trigger] is_wanted(tracker, peer_has, i) implies tracker.eligible(
        peer_has,
        false,
        i,
    ) by {}
}

/// A peer is given the rarest piece that it has, that we miss and that nobody works on, and that
/// piece is claimed for it; where there is none, it is given none and nothing changes.
pub proof fn law_the_rarest_piece_is_reserved(
    tracker: &mut PieceTracker,
    peer_has: &Bitfield,
    reserved: Option<u32>,
)
    requires
        old(tracker)@.consistent(),
        peer_has@.len() <= 0x1_0000_0000,
        call_ensures(PieceTracker::reserve_piece, (tracker, peer_has), reserved),
    ensures
        match reserved {
            Some(index) => {
                &&& is_rarest_free(old(tracker)@, peer_has@, index as int)
                &&& newly_claimed(old(tracker)@, final(tracker)@, index as int)
            },
            None => {
                &&& forall|i: int| !#[trigger] is_free(old(tracker)@, peer_has@, i)
                &&& final(tracker)@ == old(tracker)@
            },
        },
{
    lemma_offers(old(tracker)@, peer_has@);
}

/// In the endgame a peer is given the rarest piece that it has and that we miss, whoever works on
/// it.
pub proof fn law_endgame_reserves_any_wanted_piece(
    tracker: &PieceTracker,
    peer_has: &Bitfield,
    reserved: Option<u32>,
)
    requires
        tracker@.consistent(),
        peer_has@.len() <= 0x1_0000_0000,
        call_ensures(PieceTracker::reserve_piece_endgame, (tracker, peer_has), reserved),
    ensures
        match reserved {
            Some(index) => is_rarest_wanted(tracker@, peer_has@, index as int),
            None => forall|i: int| !#[trigger] is_wanted(tracker@, peer_has@, i),
        },
{
    lemma_offers(tracker@, peer_has@);
}

/// A piece that is released is claimed no longer; nothing else changes.
pub proof fn law_released_pieces_are_free(tracker: &mut PieceTracker, index: u32, result: ())
    requires
        call_ensures(PieceTracker::release_piece, (tracker, index), result),
    ensures
        given_back(old(tracker)@, final(tracker)@, index as int),
{
}

/// Data is a piece just where its digest is the one that the torrent gives for the piece.
pub proof fn law_pieces_are_known_by_their_digest(
    tracker: &PieceTracker,
    index: u32,
    data: &[u8],
    verified: bool,
    digest: &[u8; SHA1_LEN],
    expected: bool,
)
    requires
        call_ensures(PieceTracker::verify, (tracker, index, data), verified),
        call_ensures(PieceTracker::expects, (tracker, index, digest), expected),
    ensures
        verified <==> index < tracker@.hashes.len() && sha1_of(data@)
            == tracker@.hashes[index as int],
        expected <==> index < tracker@.hashes.len() && digest@ == tracker@.hashes[index as int],
{
}

/// Whether piece `index`, and no other, is newly there and claimed no longer.
pub open spec fn newly_there(before: TrackerView, after: TrackerView, index: int) -> bool {
    &&& after.hashes == before.hashes
    &&& after.availability == before.availability
    &&& after.have.len() == before.have.len()
    &&& after.claimed.len() == before.claimed.len()
    &&& forall|i: int|
        0 <= i < before.have.len() ==> (#[trigger] after.have[i] <==> i == index || before.have[i])
    &&& forall|i: int|
        0 <= i < before.claimed.len() ==> (#[trigger] after.claimed[i] <==> i != index
            && before.claimed[i])
}

/// A piece that is marked is there from then on and claimed no longer; nothing else changes.
pub proof fn law_marked_pieces_are_there(tracker: &mut PieceTracker, index: u32, result: ())
    requires
        call_ensures(PieceTracker::mark_have, (tracker, index), result),
    ensures
        newly_there(old(tracker)@, final(tracker)@, index as int),
{
}

} // verus!
