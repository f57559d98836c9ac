//! Shared, global download state: the coordination point all peer tasks share.
//!
//! [`PieceTracker`] owns the authoritative view of progress: which pieces we have, how rare each
//! piece is, and which pieces are currently *claimed* by a peer so two peers don't redundantly
//! download the same one. It also performs SHA-1 verification of completed pieces against the
//! metainfo's hashes.

use vstd::prelude::*;
use crate::digest::{sha1_digest, sha1_of};
use crate::download::bitfield::{
    all_present, contains_piece, lemma_pack_none, lemma_pack_set, pack_bits, Bitfield,
};
use crate::error::{Fault, Result};
use crate::metainfo::{piece_hash, Info, SHA1_LEN};
use crate::peer::handshake::same_20;
use crate::peer::message::low_u32;

verus! {

/// The piece-level state, over plain values.
#[verifier::ext_equal]
pub struct TrackerView {
    /// Expected SHA-1 of each piece, in order.
    pub hashes: Seq<Seq<u8>>,
    /// Pieces we have fully downloaded and verified.
    pub have: Seq<bool>,
    /// How many connected peers advertise each piece.
    pub availability: Seq<u32>,
    /// Pieces currently being downloaded by some peer.
    pub claimed: Seq<bool>,
}

/// `pieces` with piece `index` set to `present`; an index out of range changes nothing.
pub open spec fn with_piece(pieces: Seq<bool>, index: int, present: bool) -> Seq<bool> {
    if 0 <= index < pieces.len() {
        pieces.update(index, present)
    } else {
        pieces
    }
}

impl TrackerView {
    /// One entry per piece everywhere.
    pub open spec fn consistent(self) -> bool {
        &&& self.have.len() == self.hashes.len()
        &&& self.availability.len() == self.hashes.len()
        &&& self.claimed.len() == self.hashes.len()
    }

    /// Whether piece `i` is one we still need and the peer has; with `skip_claimed`, one that
    /// no peer is downloading yet.
    pub open spec fn eligible(self, peer_has: Seq<bool>, skip_claimed: bool, i: int) -> bool {
        &&& 0 <= i < self.hashes.len()
        &&& !self.have[i]
        &&& contains_piece(peer_has, i)
        &&& !(skip_claimed && self.claimed[i])
    }

    /// Whether piece `i` is the rarest eligible one, the first of them where several are
    /// equally rare.
    pub open spec fn is_rarest(self, peer_has: Seq<bool>, skip_claimed: bool, i: int) -> bool {
        &&& self.eligible(peer_has, skip_claimed, i)
        &&& forall|j: int|
            #![trigger self.eligible(peer_has, skip_claimed, j)]
            self.eligible(peer_has, skip_claimed, j) ==> if j < i {
                self.availability[i] < self.availability[j]
            } else {
                self.availability[i] <= self.availability[j]
            }
    }

    /// The rarest eligible piece, if any piece is eligible.
    pub open spec fn rarest(self, peer_has: Seq<bool>, skip_claimed: bool) -> Option<int> {
        if exists|i: int| self.eligible(peer_has, skip_claimed, i) {
            Some(choose|i: int| self.is_rarest(peer_has, skip_claimed, i))
        } else {
            None
        }
    }

    /// The piece that a reservation hands out: the rarest one that nobody has claimed, by the
    /// low 32 bits of its index.
    pub open spec fn offer(self, peer_has: Seq<bool>, skip_claimed: bool) -> Option<u32> {
        match self.rarest(peer_has, skip_claimed) {
            Some(i) => Some((i % 0x1_0000_0000) as u32),
            None => None,
        }
    }

    /// Piece `index` claimed or not.
    pub open spec fn with_claim(self, index: int, claimed: bool) -> TrackerView {
        TrackerView { claimed: with_piece(self.claimed, index, claimed), ..self }
    }

    /// After a reservation.
    pub open spec fn after_reserve(self, peer_has: Seq<bool>) -> TrackerView {
        match self.offer(peer_has, true) {
            Some(index) => self.with_claim(index as int, true),
            None => self,
        }
    }

    /// Piece `index` owned, and no longer claimed.
    pub open spec fn with_have(self, index: int) -> TrackerView {
        TrackerView {
            have: with_piece(self.have, index, true),
            claimed: with_piece(self.claimed, index, false),
            ..self
        }
    }

    /// One more peer advertises piece `index`.
    pub open spec fn more_available(self, index: int) -> TrackerView {
        if 0 <= index < self.availability.len() {
            TrackerView {
                availability: self.availability.update(
                    index,
                    (self.availability[index] + 1) as u32,
                ),
                ..self
            }
        } else {
            self
        }
    }

    /// One more peer advertises all of `pieces`.
    pub open spec fn all_more_available(self, pieces: Seq<bool>) -> TrackerView {
        TrackerView {
            availability: Seq::new(
                self.availability.len(),
                |i: int|
                    if contains_piece(pieces, i) {
                        (self.availability[i] + 1) as u32
                    } else {
                        self.availability[i]
                    },
            ),
            ..self
        }
    }

    /// One peer fewer advertises all of `pieces`; a count stops at zero.
    pub open spec fn all_less_available(self, pieces: Seq<bool>) -> TrackerView {
        TrackerView {
            availability: Seq::new(
                self.availability.len(),
                |i: int|
                    if contains_piece(pieces, i) && self.availability[i] > 0 {
                        (self.availability[i] - 1) as u32
                    } else {
                        self.availability[i]
                    },
            ),
            ..self
        }
    }

    /// Whether the count of every one of `pieces` can still grow.
    pub open spec fn has_room(self, pieces: Seq<bool>) -> bool {
        forall|i: int|
            0 <= i < self.availability.len() && contains_piece(pieces, i)
                ==> #[trigger] self.availability[i] < u32::MAX
    }

    /// Whether only pieces that we still need are claimed.
    pub open spec fn claims_needed_only(self) -> bool {
        forall|i: int| contains_piece(self.claimed, i) ==> !#[trigger] contains_piece(self.have, i)
    }

    /// Whether `data` is piece `index`: its digest is the expected one.
    pub open spec fn verifies(self, index: int, data: Seq<u8>) -> bool {
        0 <= index < self.hashes.len() && sha1_of(data) == self.hashes[index]
    }
}

/// The shared piece-level state.
#[derive(Debug)]
pub struct PieceTracker {
    piece_hashes: Vec<[u8; SHA1_LEN]>,
    have: Bitfield,
    availability: Vec<u32>,
    claimed: Vec<bool>,
}

impl View for PieceTracker {
    type V = TrackerView;

    closed spec fn view(&self) -> TrackerView {
        TrackerView {
            hashes: Seq::new(self.piece_hashes@.len(), |i: int| self.piece_hashes@[i]@),
            have: self.have@,
            availability: self.availability@,
            claimed: self.claimed@,
        }
    }
}

impl PieceTracker {
    /// Every tracker has one entry per piece everywhere, and the bits of its bitfield that stand
    /// for no piece are clear.
    #[verifier::type_invariant]
    pub open spec fn well_formed(self) -> bool {
        &&& self@.consistent()
        &&& self.spare_bits_clear()
    }

    /// The packed bitfield holds the pieces that we have and nothing else.
    pub closed spec fn spare_bits_clear(self) -> bool {
        self.have.packed() == pack_bits(self.have@)
    }

    /// Build a tracker from a parsed [`Info`].
    pub fn from_info(info: &Info) -> (result: Result<Self>)
        ensures
            if info@.pieces.len() % 20 == 0 {
                &&& result matches Ok(tracker)
                &&& tracker@.hashes == Seq::new(
                    info@.pieces.len() / 20,
                    |i: int| piece_hash(info@.pieces, i),
                )
                &&& tracker@.have == Seq::new(info@.pieces.len() / 20, |i: int| false)
                &&& tracker@.availability == Seq::new(info@.pieces.len() / 20, |i: int| 0u32)
                &&& tracker@.claimed == Seq::new(info@.pieces.len() / 20, |i: int| false)
            } else {
                &&& result matches Err(error)
                &&& error@ == Fault::InvalidPiecesLength(info@.pieces.len())
            },
    {
        let piece_hashes: Vec<[u8; SHA1_LEN]> = match info.piece_hashes() {
            Err(error) => return Err(error),
            Ok(hashes) => hashes,
        };
        let n: usize = piece_hashes.len();
        let availability: Vec<u32> = vec![0u32; n];
        let claimed: Vec<bool> = vec![false; n];
        proof {
            lemma_pack_none(n as nat);
        }
        let tracker = PieceTracker { piece_hashes, have: Bitfield::new(n), availability, claimed };
        proof {
            assert(tracker@.hashes =~= Seq::new(
                info@.pieces.len() / 20,
                |i: int| piece_hash(info@.pieces, i),
            ));
            assert(tracker@.availability =~= Seq::new(info@.pieces.len() / 20, |i: int| 0u32));
            assert(tracker@.claimed =~= Seq::new(info@.pieces.len() / 20, |i: int| false));
        }
        Ok(tracker)
    }

    /// Total number of pieces.
    pub fn num_pieces(&self) -> (n: usize)
        ensures
            n == self@.hashes.len(),
    {
        self.piece_hashes.len()
    }

    /// Whether all pieces have been downloaded and verified.
    pub fn is_complete(&self) -> (complete: bool)
        ensures
            complete == all_present(self@.have),
    {
        self.have.is_complete()
    }

    /// Our current `have` bitfield (e.g. to advertise to peers).
    pub fn have_bitfield(&self) -> (have: &Bitfield)
        ensures
            have@ == self@.have,
            have.packed() == pack_bits(self@.have),
    {
        proof {
            use_type_invariant(self);
        }
        &self.have
    }

    /// Whether we have already downloaded and verified piece `index`.
    pub fn has(&self, index: u32) -> (present: bool)
        ensures
            present == contains_piece(self@.have, index as int),
    {
        self.have.has(index as usize)
    }

    /// Whether the count of piece `index` can still grow, so that
    /// [`add_availability`](Self::add_availability) may be called.
    pub fn can_add(&self, index: usize) -> (ok: bool)
        ensures
            ok == (index < self@.availability.len() ==> self@.availability[index as int]
                < u32::MAX),
    {
        index >= self.availability.len() || self.availability[index] < u32::MAX
    }

    /// Whether the counts of all of a peer's pieces can still grow, so that
    /// [`add_bitfield_availability`](Self::add_bitfield_availability) may be called.
    pub fn has_room(&self, bitfield: &Bitfield) -> (ok: bool)
        ensures
            ok == self@.has_room(bitfield@),
    {
        let mut i: usize = 0;
        while i < self.availability.len()
            invariant
                i <= self.availability@.len(),
                forall|k: int|
                    0 <= k < i && contains_piece(bitfield@, k)
                        ==> #[trigger] self.availability@[k] < u32::MAX,
            decreases self.availability@.len() - i,
        {
            if bitfield.has(i) && self.availability[i] == u32::MAX {
                assert(contains_piece(bitfield@, i as int));
                assert(self@.availability[i as int] == u32::MAX);
                return false;
            }
            i += 1;
        }
        assert(self@.has_room(bitfield@));
        true
    }

    /// Record that a peer advertised a single piece (a `have` message).
    pub fn add_availability(&mut self, index: usize)
        requires
            index < old(self)@.availability.len() ==> old(self)@.availability[index as int]
                < u32::MAX,
        ensures
            final(self)@ == old(self)@.more_available(index as int),
    {
        proof {
            use_type_invariant(&*self);
        }
        if index < self.availability.len() {
            let count: u32 = self.availability[index];
            self.availability[index] = count + 1;
        }
        assert(self@ =~= old(self)@.more_available(index as int));
    }

    /// Record an entire peer bitfield's worth of availability at once.
    pub fn add_bitfield_availability(&mut self, bitfield: &Bitfield)
        requires
            old(self)@.has_room(bitfield@),
        ensures
            final(self)@ == old(self)@.all_more_available(bitfield@),
    {
        proof {
            use_type_invariant(&*self);
        }
        let ghost before = self@;
        let mut i: usize = 0;
        while i < self.availability.len()
            invariant
                self.well_formed(),
                before.consistent(),
                before.has_room(bitfield@),
                self@.hashes == before.hashes,
                self@.have == before.have,
                self@.claimed == before.claimed,
                i <= self.availability@.len(),
                self.availability@.len() == before.availability.len(),
                forall|k: int|
                    0 <= k < self.availability@.len() ==> #[trigger] self.availability@[k] == (if k
                        < i {
                        before.all_more_available(bitfield@).availability[k]
                    } else {
                        before.availability[k]
                    }),
            decreases self.availability@.len() - i,
        {
            if bitfield.has(i) {
                assert(contains_piece(bitfield@, i as int));
                assert(before.availability[i as int] < u32::MAX);
                let count: u32 = self.availability[i];
                self.availability[i] = count + 1;
            }
            i += 1;
        }
        assert(self@ =~= before.all_more_available(bitfield@));
    }

    /// Undo a peer's availability contribution when it disconnects (or replaces its bitfield).
    /// Without this, pieces advertised by long-departed peers stay counted forever, so a piece
    /// many transient peers once had looks permanently common and rarest-first stops
    /// prioritizing it. Saturating, which guards against any accounting drift from a
    /// misbehaving peer.
    pub fn remove_bitfield_availability(&mut self, bitfield: &Bitfield)
        ensures
            final(self)@ == old(self)@.all_less_available(bitfield@),
    {
        proof {
            use_type_invariant(&*self);
        }
        let ghost before = self@;
        let mut i: usize = 0;
        while i < self.availability.len()
            invariant
                self.well_formed(),
                before.consistent(),
                self@.hashes == before.hashes,
                self@.have == before.have,
                self@.claimed == before.claimed,
                i <= self.availability@.len(),
                self.availability@.len() == before.availability.len(),
                forall|k: int|
                    0 <= k < self.availability@.len() ==> #[trigger] self.availability@[k] == (if k
                        < i {
                        before.all_less_available(bitfield@).availability[k]
                    } else {
                        before.availability[k]
                    }),
            decreases self.availability@.len() - i,
        {
            if bitfield.has(i) {
                let count: u32 = self.availability[i];
                self.availability[i] = count.saturating_sub(1);
            }
            i += 1;
        }
        assert(self@ =~= before.all_less_available(bitfield@));
    }

    /// Pick a piece for a peer to download, claiming it exclusively.
    ///
    /// Among pieces we still need, that the peer has, and that no other peer is already
    /// downloading, choose the **rarest** (lowest availability). Returns the chosen index and
    /// marks it claimed, or `None` if there is nothing to do for this peer right now.
    pub fn reserve_piece(&mut self, peer_has: &Bitfield) -> (reserved: Option<u32>)
        ensures
            reserved == old(self)@.offer(peer_has@, true),
            final(self)@ == old(self)@.after_reserve(peer_has@),
    {
        proof {
            use_type_invariant(&*self);
        }
        match self.rarest_needed(peer_has, true) {
            None => None,
            Some(index) => {
                proof {
                    lemma_offer_in_range(self@, peer_has@, true);
                }
                self.claimed[index as usize] = true;
                assert(self@ =~= old(self)@.after_reserve(peer_has@));
                Some(index)
            },
        }
    }

    /// Endgame reservation: pick a still-needed piece the peer has **even if another peer
    /// already claimed it**. Used when [`reserve_piece`] finds nothing left to claim exclusively
    /// but the torrent isn't complete, so a piece stranded behind a slow/silent peer can be
    /// fetched in parallel rather than freezing the whole download. Does not change `claimed`
    /// (the piece may legitimately be in flight on several peers at once).
    ///
    /// [`reserve_piece`]: PieceTracker::reserve_piece
    pub fn reserve_piece_endgame(&self, peer_has: &Bitfield) -> (reserved: Option<u32>)
        ensures
            reserved == self@.offer(peer_has@, false),
    {
        self.rarest_needed(peer_has, false)
    }

    /// The rarest piece we still need and the peer has. When `skip_claimed` is true, pieces
    /// another peer is already downloading are excluded.
    fn rarest_needed(&self, peer_has: &Bitfield, skip_claimed: bool) -> (found: Option<u32>)
        ensures
            found == self@.offer(peer_has@, skip_claimed),
    {
        proof {
            use_type_invariant(self);
        }
        let ghost peer = peer_has@;
        let mut best: Option<usize> = None;
        let mut i: usize = 0;
        while i < self.piece_hashes.len()
            invariant
                self@.consistent(),
                peer == peer_has@,
                i <= self.piece_hashes@.len(),
                match best {
                    None => forall|j: int|
                        #![trigger self@.eligible(peer, skip_claimed, j)]
                        j < i ==> !self@.eligible(peer, skip_claimed, j),
                    Some(b) => {
                        &&& b < i
                        &&& self@.eligible(peer, skip_claimed, b as int)
                        &&& forall|j: int|
                            #![trigger self@.eligible(peer, skip_claimed, j)]
                            j < i && self@.eligible(peer, skip_claimed, j) ==> if j < b {
                                self@.availability[b as int] < self@.availability[j]
                            } else {
                                self@.availability[b as int] <= self@.availability[j]
                            }
                    },
                },
            decreases self.piece_hashes@.len() - i,
        {
            let skip: bool = self.have.has(i) || !peer_has.has(i) || (skip_claimed
                && self.claimed[i]);
            assert(skip == !self@.eligible(peer, skip_claimed, i as int));
            if !skip {
                match best {
                    None => {
                        best = Some(i);
                    },
                    Some(b) => {
                        if self.availability[i] < self.availability[b] {
                            best = Some(i);
                        }
                    },
                }
            }
            i += 1;
        }
        match best {
            None => {
                assert(forall|j: int| !self@.eligible(peer, skip_claimed, j));
                None
            },
            Some(b) => {
                proof {
                    assert(self@.is_rarest(peer, skip_claimed, b as int));
                    lemma_rarest_unique(self@, peer, skip_claimed, b as int);
                }
                Some(low_u32(b))
            },
        }
    }

    /// Release a previously reserved piece so another peer can take it (used on failed
    /// verification or peer disconnect mid-piece).
    pub fn release_piece(&mut self, index: u32)
        ensures
            final(self)@ == old(self)@.with_claim(index as int, false),
    {
        proof {
            use_type_invariant(&*self);
        }
        if (index as usize) < self.claimed.len() {
            self.claimed[index as usize] = false;
        }
        assert(self@ =~= old(self)@.with_claim(index as int, false));
    }

    /// Verify assembled piece bytes against the expected SHA-1.
    pub fn verify(&self, index: u32, data: &[u8]) -> (verified: bool)
        ensures
            verified == self@.verifies(index as int, data@),
    {
        self.expects(index, &sha1_digest(data))
    }

    /// Whether `digest` is the expected SHA-1 of piece `index`.
    pub fn expects(&self, index: u32, digest: &[u8; SHA1_LEN]) -> (expected: bool)
        ensures
            expected == (index < self@.hashes.len() && digest@ == self@.hashes[index as int]),
    {
        if (index as usize) < self.piece_hashes.len() {
            same_20(digest, &self.piece_hashes[index as usize])
        } else {
            false
        }
    }

    /// Mark a verified piece as owned (and no longer claimed).
    pub fn mark_have(&mut self, index: u32)
        ensures
            final(self)@ == old(self)@.with_have(index as int),
    {
        proof {
            use_type_invariant(&*self);
        }
        let mut have = self.have.clone();
        proof {
            if index < have@.len() {
                lemma_pack_set(have@, index as int);
            }
        }
        have.set(index as usize);
        self.have = have;
        self.release_piece(index);
        assert(self@ =~= old(self)@.with_have(index as int));
    }
}

/// There is at most one rarest piece.
proof fn lemma_rarest_unique(state: TrackerView, peer_has: Seq<bool>, skip_claimed: bool, i: int)
    requires
        state.is_rarest(peer_has, skip_claimed, i),
    ensures
        state.rarest(peer_has, skip_claimed) == Some(i),
{
    let chosen = choose|k: int| state.is_rarest(peer_has, skip_claimed, k);
    assert(state.is_rarest(peer_has, skip_claimed, chosen));
    assert(state.eligible(peer_has, skip_claimed, chosen));
    assert(state.eligible(peer_has, skip_claimed, i));
}

/// Where a piece is eligible, one of them is the rarest.
proof fn lemma_rarest_exists(
    state: TrackerView,
    peer_has: Seq<bool>,
    skip_claimed: bool,
    upto: int,
) -> (best: Option<int>)
    requires
        0 <= upto <= state.hashes.len(),
    ensures
        match best {
            None => forall|j: int|
                #![trigger state.eligible(peer_has, skip_claimed, j)]
                j < upto ==> !state.eligible(peer_has, skip_claimed, j),
            Some(b) => {
                &&& b < upto
                &&& state.eligible(peer_has, skip_claimed, b)
                &&& forall|j: int|
                    #![trigger state.eligible(peer_has, skip_claimed, j)]
                    j < upto && state.eligible(peer_has, skip_claimed, j) ==> if j < b {
                        state.availability[b] < state.availability[j]
                    } else {
                        state.availability[b] <= state.availability[j]
                    }
            },
        },
    decreases upto,
{
    if upto == 0 {
        None
    } else {
        let i = upto - 1;
        let best = lemma_rarest_exists(state, peer_has, skip_claimed, i);
        if !state.eligible(peer_has, skip_claimed, i) {
            best
        } else {
            match best {
                None => Some(i),
                Some(b) => if state.availability[i] < state.availability[b] {
                    Some(i)
                } else {
                    Some(b)
                },
            }
        }
    }
}

/// What is offered is the rarest eligible piece.
proof fn lemma_rarest(state: TrackerView, peer_has: Seq<bool>, skip_claimed: bool)
    ensures
        match state.rarest(peer_has, skip_claimed) {
            Some(i) => state.is_rarest(peer_has, skip_claimed, i),
            None => forall|i: int| !state.eligible(peer_has, skip_claimed, i),
        },
{
    let best = lemma_rarest_exists(state, peer_has, skip_claimed, state.hashes.len() as int);
    match best {
        Some(b) => {
            assert(state.is_rarest(peer_has, skip_claimed, b));
            lemma_rarest_unique(state, peer_has, skip_claimed, b);
        },
        None => {},
    }
}

/// An offered index is the index of a piece.
pub proof fn lemma_offer_in_range(state: TrackerView, peer_has: Seq<bool>, skip_claimed: bool)
    ensures
        state.offer(peer_has, skip_claimed) matches Some(index) ==> index < state.hashes.len(),
{
    lemma_rarest(state, peer_has, skip_claimed);
}

/// What a reservation offers is a piece that we need and the peer has, and no eligible piece is
/// rarer; nothing is offered only where no piece is eligible. (Where the peer's piece indices
/// fit in 32 bits.)
pub proof fn law_reservation_is_rarest_first(
    state: TrackerView,
    peer_has: Seq<bool>,
    skip_claimed: bool,
)
    requires
        peer_has.len() <= 0x1_0000_0000,
    ensures
        match state.offer(peer_has, skip_claimed) {
            Some(index) => state.is_rarest(peer_has, skip_claimed, index as int),
            None => forall|i: int| !state.eligible(peer_has, skip_claimed, i),
        },
{
    lemma_rarest(state, peer_has, skip_claimed);
}

/// A claimed piece is not handed out again: whoever asks next gets another piece or none.
pub proof fn law_claims_are_exclusive(state: TrackerView, first: Seq<bool>, second: Seq<bool>)
    requires
        state.consistent(),
        state.hashes.len() <= 0x1_0000_0000,
        state.offer(first, true) is Some,
    ensures
        state.after_reserve(first).offer(second, true) != state.offer(first, true),
{
    lemma_rarest(state, first, true);
    lemma_rarest(state.after_reserve(first), second, true);
}

/// Releasing a reserved piece undoes the reservation, so it can be reserved again.
pub proof fn law_release_undoes_reserve(state: TrackerView, peer_has: Seq<bool>)
    requires
        state.consistent(),
        state.hashes.len() <= 0x1_0000_0000,
    ensures
        state.offer(peer_has, true) matches Some(index) ==> state.after_reserve(
            peer_has,
        ).with_claim(index as int, false) == state,
{
    lemma_rarest(state, peer_has, true);
    match state.offer(peer_has, true) {
        Some(index) => {
            assert(state.after_reserve(peer_has).with_claim(index as int, false).claimed
                =~= state.claimed);
        },
        None => {},
    }
}

/// Endgame offers a piece wherever one is still needed that the peer has, claimed or not, and
/// never one that we have.
pub proof fn law_endgame_offers_needed_pieces(state: TrackerView, peer_has: Seq<bool>)
    requires
        state.consistent(),
        state.hashes.len() <= 0x1_0000_0000,
    ensures
        state.offer(peer_has, false) is Some <==> exists|i: int|
            0 <= i < state.hashes.len() && !#[trigger] state.have[i] && contains_piece(peer_has, i),
        state.offer(peer_has, false) matches Some(index) ==> !contains_piece(
            state.have,
            index as int,
        ) && contains_piece(peer_has, index as int),
        all_present(state.have) ==> state.offer(peer_has, false) is None,
{
    lemma_rarest(state, peer_has, false);
    if exists|i: int|
        0 <= i < state.hashes.len() && !#[trigger] state.have[i] && contains_piece(peer_has, i) {
        let i = choose|i: int|
            0 <= i < state.hashes.len() && !#[trigger] state.have[i] && contains_piece(peer_has, i);
        assert(state.eligible(peer_has, false, i));
    }
}

/// A peer's contribution to the availability counts is undone when it leaves.
pub proof fn law_leaving_undoes_joining(state: TrackerView, pieces: Seq<bool>)
    requires
        state.has_room(pieces),
    ensures
        state.all_more_available(pieces).all_less_available(pieces) == state,
{
    assert forall|i: int| 0 <= i < state.availability.len() implies state.all_more_available(
        pieces,
    ).all_less_available(pieces).availability[i] == state.availability[i] by {
        if contains_piece(pieces, i) {
            assert(state.availability[i] < u32::MAX);
        }
    }
    assert(state.all_more_available(pieces).all_less_available(pieces) =~= state);
}

/// Progress is never lost: no operation takes away a piece that we have.
pub proof fn law_progress_is_monotone(
    state: TrackerView,
    peer_has: Seq<bool>,
    index: int,
    held: int,
)
    requires
        contains_piece(state.have, held),
    ensures
        contains_piece(state.after_reserve(peer_has).have, held),
        contains_piece(state.with_claim(index, false).have, held),
        contains_piece(state.with_have(index).have, held),
        contains_piece(state.more_available(index).have, held),
        contains_piece(state.all_more_available(peer_has).have, held),
        contains_piece(state.all_less_available(peer_has).have, held),
{
}

/// A piece that we have is never claimed, so that nobody downloads it again: no operation breaks
/// this once it holds.
pub proof fn law_only_needed_pieces_are_claimed(
    state: TrackerView,
    peer_has: Seq<bool>,
    index: int,
)
    requires
        state.consistent(),
        state.hashes.len() <= 0x1_0000_0000,
        state.claims_needed_only(),
    ensures
        state.after_reserve(peer_has).claims_needed_only(),
        state.with_claim(index, false).claims_needed_only(),
        state.with_have(index).claims_needed_only(),
        state.more_available(index).claims_needed_only(),
        state.all_more_available(peer_has).claims_needed_only(),
        state.all_less_available(peer_has).claims_needed_only(),
{
    lemma_rarest(state, peer_has, true);
    let reserved = state.after_reserve(peer_has);
    assert forall|i: int| contains_piece(reserved.claimed, i) implies !#[trigger] contains_piece(
        reserved.have,
        i,
    ) by {
        assert(contains_piece(state.claimed, i) ==> !contains_piece(state.have, i));
    }
    let released = state.with_claim(index, false);
    assert forall|i: int| contains_piece(released.claimed, i) implies !#[trigger] contains_piece(
        released.have,
        i,
    ) by {
        assert(contains_piece(state.claimed, i) ==> !contains_piece(state.have, i));
    }
    let owned = state.with_have(index);
    assert forall|i: int| contains_piece(owned.claimed, i) implies !#[trigger] contains_piece(
        owned.have,
        i,
    ) by {
        assert(contains_piece(state.claimed, i) ==> !contains_piece(state.have, i));
    }
    let more = state.more_available(index);
    assert(more.claimed == state.claimed && more.have == state.have);
}

} // verus!
