//! The per-peer download state machine.
//!
//! A [`Session`] decides; its driver performs. The driver
//!
//! * announces `Interested` once, then repeats:
//! * [`on_control`](Session::on_control): honour pause and cancel,
//! * [`claim`](Session::claim): reserve a piece to work on (rarest-first, exclusive per peer,
//!   endgame when nothing is left to claim),
//! * [`refill`](Session::refill): send the block requests that fill the pipeline,
//! * waits for a message, a timeout (while [`is_waiting`](Session::is_waiting)) or the end of
//!   the connection, and hands it back: [`on_message`](Session::on_message),
//!   [`on_timeout`](Session::on_timeout), [`on_closed`](Session::on_closed).

use vstd::prelude::*;
use vstd::slice::slice_to_vec;
use bytes::Bytes;
use crate::buffer::{as_slice, shared};
use crate::digest::{sha1_digest, sha1_of};
use crate::download::bitfield::{
    all_present, bitfield_len, bitfield_len_text, contains_piece, count_present, unpack_bits,
    Bitfield,
};
use crate::download::piece::{
    assembled_from, law_assembly_keeps_content, AssemblyView, Geometry, GeometryView,
    PieceAssembler,
};
use crate::download::state::{
    law_only_needed_pieces_are_claimed, law_reservation_is_rarest_first, with_piece,
    PieceTracker, TrackerView,
};
use crate::download::stats::{PeerEntry, StatsView, SwarmStats};
use crate::error::{outcome, Error, Fault, Result};
use crate::peer::message::{low_u32, Block, BlockInfo, Message, MessageView};
use crate::text::{decimal, push_decimal};

verus! {

/// How many block requests we keep in flight per peer at once. Pipelining hides the round-trip
/// latency between request and delivery.
pub const MAX_PIPELINED_REQUESTS: u32 = 5;

/// Runtime control state for a download.
#[derive(Debug, Clone, Copy, PartialEq, Eq, Structural)]
pub enum ControlState {
    /// Actively downloading.
    Running,
    /// Temporarily suspended: peers stop requesting and idle until resumed.
    Paused,
    /// Aborted: peer sessions shut down.
    Cancelled,
}

/// A fully downloaded and SHA-1-verified piece, ready to be written to disk.
#[derive(Debug, PartialEq, Eq)]
pub struct VerifiedPiece {
    /// Zero-based piece index.
    pub index: u32,
    /// The verified piece bytes.
    pub data: Bytes,
}

impl View for VerifiedPiece {
    type V = (u32, Seq<u8>);

    open spec fn view(&self) -> (u32, Seq<u8>) {
        (self.index, shared(self.data))
    }
}

impl Clone for VerifiedPiece {
    fn clone(&self) -> (copy: Self)
        ensures
            copy@ == self@,
    {
        VerifiedPiece { index: self.index, data: self.data.clone() }
    }
}

/// What a session does next about the control state.
#[derive(Debug, Clone, Copy, PartialEq, Eq, Structural)]
pub enum Directive {
    /// Go on with the work.
    Proceed,
    /// Idle until the control state changes.
    Wait,
    /// Shut down.
    Stop,
}

/// What came of a message.
#[derive(Debug, PartialEq, Eq)]
pub struct Reaction {
    /// The torrent is now complete: the session should stop and wake the others.
    pub complete: bool,
    /// A piece that was just completed and verified.
    pub piece: Option<VerifiedPiece>,
}

/// A [`Reaction`] over plain values.
#[verifier::ext_equal]
pub struct ReactionView {
    pub complete: bool,
    pub piece: Option<(u32, Seq<u8>)>,
}

impl View for Reaction {
    type V = ReactionView;

    open spec fn view(&self) -> ReactionView {
        ReactionView {
            complete: self.complete,
            piece: match self.piece {
                Some(piece) => Some(piece@),
                None => None,
            },
        }
    }
}

/// Nothing to report.
pub open spec fn no_reaction() -> ReactionView {
    ReactionView { complete: false, piece: None }
}

/// A session, over plain values.
#[verifier::ext_equal]
pub struct SessionView {
    pub geometry: GeometryView,
    /// The pieces that the peer advertised.
    pub peer_has: Seq<bool>,
    /// Whether the peer is choking us.
    pub choked: bool,
    /// The piece we're currently downloading, if any.
    pub current: Option<AssemblyView>,
    /// Next block index to request for `current`.
    pub next_block: u32,
    /// Outstanding (requested, unanswered) blocks.
    pub in_flight: u32,
}

impl SessionView {
    /// What holds of a session at all times: one flag per piece, never more requests in flight
    /// than the pipeline holds or than were made, and a current piece that is a piece of this
    /// torrent with no block requested beyond its end.
    pub open spec fn consistent(self) -> bool {
        &&& self.geometry.consistent()
        &&& self.peer_has.len() == self.geometry.num_pieces
        &&& self.in_flight <= MAX_PIPELINED_REQUESTS
        &&& self.in_flight <= self.next_block
        &&& self.current matches Some(piece) ==> {
            &&& piece.index < self.geometry.num_pieces
            &&& piece.data.len() == self.geometry.piece_len(piece.index as nat)
            &&& piece.consistent()
            &&& self.next_block <= self.geometry.blocks(piece.index as nat)
        }
    }

    /// No piece being downloaded.
    pub open spec fn idle(self) -> SessionView {
        SessionView { current: None, next_block: 0, in_flight: 0, ..self }
    }

    /// Piece `index` being downloaded, nothing requested yet.
    pub open spec fn working_on(self, index: u32) -> SessionView {
        SessionView {
            current: Some(
                AssemblyView::start(index, self.geometry.piece_len(index as nat) as u32),
            ),
            next_block: 0,
            in_flight: 0,
            ..self
        }
    }

    /// The tracker once the current piece, if any, is given back.
    pub open spec fn released(self, tracker: TrackerView) -> TrackerView {
        match self.current {
            Some(piece) => tracker.with_claim(piece.index as int, false),
            None => tracker,
        }
    }

    /// The request for one block.
    pub open spec fn request(self, index: u32, block: nat) -> BlockInfo {
        BlockInfo {
            index,
            begin: self.geometry.block(index as nat, block).0 as u32,
            length: self.geometry.block(index as nat, block).1 as u32,
        }
    }

    /// How many requests fill the pipeline: as many as it has room for, as far as the current
    /// piece has blocks that were not requested; none while the peer chokes us.
    pub open spec fn open_slots(self) -> nat {
        match self.current {
            Some(piece) => if self.choked {
                0
            } else {
                let room = (MAX_PIPELINED_REQUESTS - self.in_flight) as nat;
                let left = (self.geometry.blocks(piece.index as nat) - self.next_block) as nat;
                if room < left {
                    room
                } else {
                    left
                }
            },
            None => 0,
        }
    }

    /// The requests that fill the pipeline: the next blocks of the current piece, in order.
    pub open spec fn requests(self) -> Seq<BlockInfo> {
        Seq::new(
            self.open_slots(),
            |i: int| self.request(self.current->0.index, (self.next_block + i) as nat),
        )
    }

    /// With those requests made.
    pub open spec fn refilled(self) -> SessionView {
        SessionView {
            next_block: (self.next_block + self.open_slots()) as u32,
            in_flight: (self.in_flight + self.open_slots()) as u32,
            ..self
        }
    }
}

/// A fresh session: the peer has nothing yet and chokes us.
pub open spec fn fresh_session(geometry: GeometryView) -> SessionView {
    SessionView {
        geometry,
        peer_has: Seq::new(geometry.num_pieces, |i: int| false),
        choked: true,
        current: None,
        next_block: 0,
        in_flight: 0,
    }
}

/// A session with the shared state, and what is to be reported.
#[verifier::ext_equal]
pub struct Reacted {
    pub session: SessionView,
    pub tracker: TrackerView,
    pub stats: StatsView,
    pub outcome: std::result::Result<ReactionView, Fault>,
}

/// Claiming a piece: nothing while a piece is in work or the peer chokes us. Else the rarest
/// unclaimed piece; where there is none, the download may be complete; where it is not, a piece
/// that somebody else has claimed.
pub open spec fn claim_step(session: SessionView, tracker: TrackerView) -> (
    SessionView,
    TrackerView,
    bool,
) {
    if session.current is Some || session.choked {
        (session, tracker, false)
    } else {
        match tracker.offer(session.peer_has, true) {
            Some(index) => (
                session.working_on(index),
                tracker.after_reserve(session.peer_has),
                false,
            ),
            None => if all_present(tracker.have) {
                (session, tracker, true)
            } else {
                match tracker.offer(session.peer_has, false) {
                    Some(index) => (session.working_on(index), tracker, false),
                    None => (session, tracker, false),
                }
            },
        }
    }
}

/// A piece is whole, with the given digest: it is kept and reported where the digest is the
/// expected one and we do not have the piece yet, given back for another try where the digest is
/// wrong, and dropped where another peer was faster.
pub open spec fn settle_step(
    tracker: TrackerView,
    index: u32,
    data: Seq<u8>,
    digest: Seq<u8>,
) -> (TrackerView, ReactionView) {
    if contains_piece(tracker.have, index as int) {
        (tracker, ReactionView { complete: all_present(tracker.have), piece: None })
    } else if index < tracker.hashes.len() && digest == tracker.hashes[index as int] {
        let after = tracker.with_have(index as int);
        (
            after,
            ReactionView { complete: all_present(after.have), piece: Some((index, data)) },
        )
    } else {
        (tracker.with_claim(index as int, false), no_reaction())
    }
}

/// The complaint about a block that does not fill its place.
pub open spec fn short_block_text(begin: u32, len: nat) -> Seq<char> {
    "block ["@ + decimal(begin as nat) + ", "@ + decimal(begin as nat) + "+"@ + decimal(len)
        + ") is shorter than requested"@
}

/// A delivered block: ignored unless it belongs to the current piece; turned down where it is
/// shorter than its place, so that what is kept was received; else put into place unless it was
/// received before, and if that completes the piece, the piece is settled.
pub open spec fn block_step(
    session: SessionView,
    tracker: TrackerView,
    stats: StatsView,
    index: u32,
    begin: u32,
    data: Seq<u8>,
) -> Reacted {
    let unchanged = Reacted { session, tracker, stats, outcome: Ok(no_reaction()) };
    match session.current {
        None => unchanged,
        Some(piece) => if piece.index != index {
            unchanged
        } else {
            match piece.rejects(begin, data.len()) {
                Some(text) => Reacted { outcome: Err(Fault::PeerProtocol(text)), ..unchanged },
                None => if piece.falls_short(begin, data.len()) {
                    let text = short_block_text(begin, data.len());
                    Reacted { outcome: Err(Fault::PeerProtocol(text)), ..unchanged }
                } else {
                    let piece = piece.after_delivery(begin, data);
                    let in_flight = if session.in_flight == 0 {
                        0
                    } else {
                        (session.in_flight - 1) as u32
                    };
                    if all_present(piece.received) {
                        let (tracker, reaction) = settle_step(
                            tracker,
                            index,
                            piece.data,
                            sha1_of(piece.data),
                        );
                        Reacted {
                            session: SessionView { current: None, in_flight, ..session },
                            tracker,
                            stats,
                            outcome: Ok(reaction),
                        }
                    } else {
                        Reacted {
                            session: SessionView { current: Some(piece), in_flight, ..session },
                            ..unchanged
                        }
                    }
                },
            }
        },
    }
}

/// The number of pieces that the peer advertises, as it is shown.
pub open spec fn shown_count(pieces: Seq<bool>) -> u32 {
    (count_present(pieces) % 0x1_0000_0000) as u32
}

/// What a message does.
pub open spec fn message_step(
    session: SessionView,
    tracker: TrackerView,
    stats: StatsView,
    addr: Seq<char>,
    message: MessageView,
) -> Reacted {
    let unchanged = Reacted { session, tracker, stats, outcome: Ok(no_reaction()) };
    match message {
        MessageView::Choke => Reacted {
            session: if session.current is Some {
                SessionView { choked: true, ..session.idle() }
            } else {
                SessionView { choked: true, ..session }
            },
            tracker: session.released(tracker),
            stats: stats.with_peer(addr, PeerEntry { choked: true, ..stats.peers[addr] }),
            ..unchanged
        },
        MessageView::Unchoke => Reacted {
            session: SessionView { choked: false, ..session },
            stats: stats.with_peer(addr, PeerEntry { choked: false, ..stats.peers[addr] }),
            ..unchanged
        },
        MessageView::Have(index) => {
            let peer_has = with_piece(session.peer_has, index as int, true);
            Reacted {
                session: SessionView { peer_has, ..session },
                tracker: tracker.more_available(index as int),
                stats: stats.with_peer(
                    addr,
                    PeerEntry { have_pieces: shown_count(peer_has), ..stats.peers[addr] },
                ),
                ..unchanged
            }
        },
        MessageView::Bitfield(bits) => {
            let num_pieces = session.geometry.num_pieces;
            let peer_has = unpack_bits(bits, num_pieces);
            if bits.len() == bitfield_len(num_pieces) {
                Reacted {
                    session: SessionView { peer_has, ..session },
                    tracker: tracker.all_more_available(peer_has),
                    stats: stats.with_peer(
                        addr,
                        PeerEntry { have_pieces: shown_count(peer_has), ..stats.peers[addr] },
                    ),
                    ..unchanged
                }
            } else {
                Reacted {
                    outcome: Err(Fault::PeerProtocol(bitfield_len_text(bits.len(), num_pieces))),
                    ..unchanged
                }
            }
        },
        MessageView::Piece { index, begin, data } => block_step(
            session,
            tracker,
            stats.after_block(addr, data.len() as u64),
            index,
            begin,
            data,
        ),
        _ => unchanged,
    }
}

/// Whether a message can be handled: no counter would overflow.
pub open spec fn can_handle(
    session: SessionView,
    tracker: TrackerView,
    stats: StatsView,
    addr: Seq<char>,
    message: MessageView,
) -> bool {
    match message {
        MessageView::Have(index) => index < tracker.availability.len()
            ==> tracker.availability[index as int] < u32::MAX,
        MessageView::Bitfield(bits) => bits.len() == bitfield_len(session.geometry.num_pieces)
            ==> tracker.has_room(unpack_bits(bits, session.geometry.num_pieces)),
        MessageView::Piece { data, .. } => {
            &&& data.len() <= u64::MAX
            &&& stats.can_count(addr, data.len())
        },
        _ => true,
    }
}

/// One peer's download session.
#[derive(Debug)]
pub struct Session {
    geometry: Geometry,
    peer_has: Bitfield,
    choked: bool,
    current: Option<PieceAssembler>,
    next_block: u32,
    in_flight: u32,
}

impl View for Session {
    type V = SessionView;

    closed spec fn view(&self) -> SessionView {
        SessionView {
            geometry: self.geometry@,
            peer_has: self.peer_has@,
            choked: self.choked,
            current: match self.current {
                Some(piece) => Some(piece@),
                None => None,
            },
            next_block: self.next_block,
            in_flight: self.in_flight,
        }
    }
}

impl Session {
    /// A fresh session: the peer has nothing yet and chokes us.
    pub fn new(geometry: Geometry) -> (session: Session)
        ensures
            session@.consistent(),
            session@ == fresh_session(geometry@),
    {
        proof {
            use_type_invariant(&geometry);
        }
        let peer_has = Bitfield::new(geometry.num_pieces() as usize);
        Session { geometry, peer_has, choked: true, current: None, next_block: 0, in_flight: 0 }
    }

    /// The piece being downloaded, if any.
    pub fn current_piece(&self) -> (index: Option<u32>)
        ensures
            index == match self@.current {
                Some(piece) => Some(piece.index),
                None => None,
            },
    {
        match &self.current {
            Some(piece) => Some(piece.index()),
            None => None,
        }
    }

    /// Whether requested blocks are outstanding, so that a silent peer must be timed out.
    pub fn is_waiting(&self) -> (waiting: bool)
        ensures
            waiting == (self@.current is Some && self@.in_flight > 0),
    {
        self.current.is_some() && self.in_flight > 0
    }

    /// Honour the control state before doing any work. A paused or cancelled session gives its
    /// piece back.
    pub fn on_control(&mut self, state: ControlState, tracker: &mut PieceTracker) -> (directive:
        Directive)
        requires
            old(self)@.consistent(),
        ensures
            final(self)@.consistent(),
            match state {
                ControlState::Running => {
                    &&& directive == Directive::Proceed
                    &&& final(self)@ == old(self)@
                    &&& final(tracker)@ == old(tracker)@
                },
                ControlState::Paused => {
                    &&& directive == Directive::Wait
                    &&& final(self)@ == (if old(self)@.current is Some {
                        old(self)@.idle()
                    } else {
                        old(self)@
                    })
                    &&& final(tracker)@ == old(self)@.released(old(tracker)@)
                },
                ControlState::Cancelled => {
                    &&& directive == Directive::Stop
                    &&& final(self)@ == (if old(self)@.current is Some {
                        old(self)@.idle()
                    } else {
                        old(self)@
                    })
                    &&& final(tracker)@ == old(self)@.released(old(tracker)@)
                },
            },
    {
        match state {
            ControlState::Running => Directive::Proceed,
            ControlState::Paused => {
                self.give_back(tracker);
                Directive::Wait
            },
            ControlState::Cancelled => {
                self.give_back(tracker);
                Directive::Stop
            },
        }
    }

    /// Gives the current piece back, so that another peer can take it.
    fn give_back(&mut self, tracker: &mut PieceTracker)
        requires
            old(self)@.consistent(),
        ensures
            final(self)@.consistent(),
            final(self)@ == (if old(self)@.current is Some {
                old(self)@.idle()
            } else {
                old(self)@
            }),
            final(tracker)@ == old(self)@.released(old(tracker)@),
    {
        let taken: Option<PieceAssembler> = self.current.take();
        match taken {
            Some(piece) => {
                tracker.release_piece(piece.index());
                self.next_block = 0;
                self.in_flight = 0;
            },
            None => {},
        }
        assert(self@ =~= (if old(self)@.current is Some {
            old(self)@.idle()
        } else {
            old(self)@
        }));
    }

    /// If idle and unchoked, try to claim a new piece to work on. Returns `true` where the
    /// torrent is complete, so that the session should stop and wake the others.
    pub fn claim(&mut self, tracker: &mut PieceTracker) -> (complete: bool)
        requires
            old(self)@.consistent(),
        ensures
            final(self)@.consistent(),
            (final(self)@, final(tracker)@, complete) == claim_step(old(self)@, old(tracker)@),
    {
        if self.current.is_some() || self.choked {
            return false;
        }
        proof {
            law_reservation_is_rarest_first(tracker@, self@.peer_has, true);
            law_reservation_is_rarest_first(tracker@, self@.peer_has, false);
        }
        let reserved: Option<u32> = match tracker.reserve_piece(&self.peer_has) {
            Some(index) => Some(index),
            None => {
                if tracker.is_complete() {
                    return true;
                }
                tracker.reserve_piece_endgame(&self.peer_has)
            },
        };
        match reserved {
            Some(index) => {
                self.current = Some(PieceAssembler::new(index, self.geometry.piece_length(index)));
                self.next_block = 0;
                self.in_flight = 0;
                assert(self@ =~= old(self)@.working_on(index));
            },
            None => {},
        }
        false
    }

    /// Refill the request pipeline for the current piece: the requests to send, in order.
    pub fn refill(&mut self) -> (requests: Vec<BlockInfo>)
        requires
            old(self)@.consistent(),
        ensures
            final(self)@.consistent(),
            requests@ == old(self)@.requests(),
            final(self)@ == old(self)@.refilled(),
    {
        let mut requests: Vec<BlockInfo> = Vec::new();
        if !self.choked {
            match &self.current {
                Some(piece) => {
                    let index: u32 = piece.index();
                    let total_blocks: u32 = self.geometry.num_blocks(index);
                    let ghost before = self@;
                    let mut next_block: u32 = self.next_block;
                    let mut in_flight: u32 = self.in_flight;
                    while in_flight < MAX_PIPELINED_REQUESTS && next_block < total_blocks
                        invariant
                            before == self@,
                            before.consistent(),
                            before.current is Some,
                            before.current->0.index == index,
                            total_blocks == before.geometry.blocks(index as nat),
                            self.geometry@ == before.geometry,
                            before.next_block <= next_block <= total_blocks,
                            before.in_flight <= in_flight <= MAX_PIPELINED_REQUESTS,
                            requests@.len() == next_block - before.next_block,
                            requests@.len() == in_flight - before.in_flight,
                            forall|k: int|
                                0 <= k < requests@.len() ==> #[trigger] requests@[k]
                                    == before.request(index, (before.next_block + k) as nat),
                        decreases total_blocks - next_block,
                    {
                        requests.push(self.geometry.block_info(index, next_block));
                        next_block += 1;
                        in_flight += 1;
                    }
                    self.next_block = next_block;
                    self.in_flight = in_flight;
                },
                None => {},
            }
        }
        assert(requests@ =~= old(self)@.requests());
        assert(self@ =~= old(self)@.refilled());
        requests
    }

    /// The requested blocks did not arrive in time: a silent peer must not strand its piece.
    pub fn on_timeout(&mut self, tracker: &mut PieceTracker)
        requires
            old(self)@.consistent(),
        ensures
            final(self)@.consistent(),
            final(self)@ == old(self)@.idle(),
            final(tracker)@ == old(self)@.released(old(tracker)@),
    {
        self.give_back(tracker);
        self.next_block = 0;
        self.in_flight = 0;
        assert(self@ =~= old(self)@.idle());
    }

    /// The peer is gone, or the connection is given up: relinquish any in-progress piece.
    pub fn on_closed(&mut self, tracker: &mut PieceTracker)
        requires
            old(self)@.consistent(),
        ensures
            final(self)@.consistent(),
            final(self)@ == (if old(self)@.current is Some {
                old(self)@.idle()
            } else {
                old(self)@
            }),
            final(tracker)@ == old(self)@.released(old(tracker)@),
    {
        self.give_back(tracker);
    }

    /// Whether [`on_message`](Self::on_message) may be called.
    pub fn can_handle(
        &self,
        message: &Message,
        addr: &str,
        tracker: &PieceTracker,
        stats: &SwarmStats,
    ) -> (ok: bool)
        requires
            self@.consistent(),
        ensures
            ok == can_handle(self@, tracker@, stats@, addr@, message@),
    {
        match message {
            Message::Have(index) => tracker.can_add(*index as usize),
            Message::Bitfield(bits) => {
                match Bitfield::from_bytes(
                    slice_to_vec(as_slice(bits)),
                    self.geometry.num_pieces() as usize,
                ) {
                    Ok(bitfield) => tracker.has_room(&bitfield),
                    Err(_) => true,
                }
            },
            Message::Piece(block) => {
                let len: usize = block.data.len();
                stats.can_count(addr, len as u64)
            },
            _ => true,
        }
    }

    /// Handle a message from the peer. After an error the session is to be closed.
    pub fn on_message(
        &mut self,
        message: Message,
        addr: &str,
        tracker: &mut PieceTracker,
        stats: &mut SwarmStats,
    ) -> (result: Result<Reaction>)
        requires
            old(self)@.consistent(),
            can_handle(old(self)@, old(tracker)@, old(stats)@, addr@, message@),
        ensures
            final(self)@.consistent(),
            ({
                let step = message_step(
                    old(self)@,
                    old(tracker)@,
                    old(stats)@,
                    addr@,
                    message@,
                );
                &&& final(self)@ == step.session
                &&& final(tracker)@ == step.tracker
                &&& final(stats)@ == step.stats
                &&& outcome(result) == step.outcome
            }),
    {
        let ghost step = message_step(self@, tracker@, stats@, addr@, message@);
        match message {
            Message::Choke => {
                self.choked = true;
                stats.set_choked(addr, true);
                self.give_back(tracker);
                assert(self@ =~= step.session);
            },
            Message::Unchoke => {
                self.choked = false;
                stats.set_choked(addr, false);
                assert(self@ =~= step.session);
            },
            Message::Have(index) => {
                self.peer_has.set(index as usize);
                tracker.add_availability(index as usize);
                stats.set_have_count(addr, low_u32(self.peer_has.count()));
                assert(self@ =~= step.session);
            },
            Message::Bitfield(bits) => {
                match Bitfield::from_bytes(
                    slice_to_vec(as_slice(&bits)),
                    self.geometry.num_pieces() as usize,
                ) {
                    Err(error) => return Err(error),
                    Ok(bitfield) => {
                        self.peer_has = bitfield;
                    },
                }
                tracker.add_bitfield_availability(&self.peer_has);
                stats.set_have_count(addr, low_u32(self.peer_has.count()));
                assert(self@ =~= step.session);
            },
            Message::Piece(block) => {
                stats.record_block(addr, block.data.len() as u64);
                return self.handle_block(block, tracker, Ghost(stats@));
            },
            _ => {},
        }
        Ok(Reaction { complete: false, piece: None })
    }

    /// Apply a received block to the current piece.
    fn handle_block(
        &mut self,
        block: Block,
        tracker: &mut PieceTracker,
        Ghost(stats): Ghost<StatsView>,
    ) -> (result: Result<Reaction>)
        requires
            old(self)@.consistent(),
        ensures
            final(self)@.consistent(),
            ({
                let step = block_step(
                    old(self)@,
                    old(tracker)@,
                    stats,
                    block.index,
                    block.begin,
                    shared(block.data),
                );
                &&& final(self)@ == step.session
                &&& final(tracker)@ == step.tracker
                &&& outcome(result) == step.outcome
            }),
    {
        let ghost before = self@;
        let taken: Option<PieceAssembler> = self.current.take();
        let mut piece: PieceAssembler = match taken {
            None => return Ok(Reaction { complete: false, piece: None }),
            Some(piece) => piece,
        };
        if block.index != piece.index() {
            self.current = Some(piece);
            assert(self@ =~= before);
            return Ok(Reaction { complete: false, piece: None });
        }
        if piece.falls_short(block.begin, block.data.len()) {
            let mut text = "block [".to_owned();
            push_decimal(&mut text, block.begin as u64);
            text.append(", ");
            push_decimal(&mut text, block.begin as u64);
            text.append("+");
            push_decimal(&mut text, block.data.len() as u64);
            text.append(") is shorter than requested");
            self.current = Some(piece);
            assert(self@ =~= before);
            return Err(Error::PeerProtocol(text));
        }
        match piece.add_block(block.begin, as_slice(&block.data)) {
            Err(error) => {
                self.current = Some(piece);
                assert(self@ =~= before);
                return Err(error);
            },
            Ok(()) => {},
        }
        if self.in_flight > 0 {
            self.in_flight = self.in_flight - 1;
        }
        if !piece.is_complete() {
            self.current = Some(piece);
            return Ok(Reaction { complete: false, piece: None });
        }
        let index: u32 = piece.index();
        let data: Bytes = piece.into_bytes();
        let digest: [u8; 20] = sha1_digest(as_slice(&data));
        Ok(settle(tracker, index, data, &digest))
    }
}

/// A piece is whole, with the given digest: keep it, or give it back for another try.
pub fn settle(tracker: &mut PieceTracker, index: u32, data: Bytes, digest: &[u8; 20]) -> (reaction:
    Reaction)
    ensures
        (final(tracker)@, reaction@) == settle_step(
            old(tracker)@,
            index,
            shared(data),
            digest@,
        ),
{
    if tracker.has(index) {
        return Reaction { complete: tracker.is_complete(), piece: None };
    }
    if tracker.expects(index, digest) {
        tracker.mark_have(index);
        let complete: bool = tracker.is_complete();
        return Reaction { complete, piece: Some(VerifiedPiece { index, data }) };
    }
    tracker.release_piece(index);
    Reaction { complete: false, piece: None }
}

/// Only verified data is reported, and each piece once: a reported piece has the expected
/// digest and the length of its piece, we did not have it before, and we have it from then on.
pub proof fn law_reported_pieces_are_verified_and_new(
    session: SessionView,
    tracker: TrackerView,
    stats: StatsView,
    addr: Seq<char>,
    message: MessageView,
)
    requires
        session.consistent(),
        tracker.consistent(),
        can_handle(session, tracker, stats, addr, message),
    ensures
        ({
            let step = message_step(session, tracker, stats, addr, message);
            step.outcome matches Ok(reaction) ==> reaction.piece matches Some((index, data)) ==> {
                &&& tracker.verifies(index as int, data)
                &&& data.len() == session.geometry.piece_len(index as nat)
                &&& !contains_piece(tracker.have, index as int)
                &&& contains_piece(step.tracker.have, index as int)
            }
        }),
{
}

/// A message never takes away a piece that we have, and completion is reported only where no
/// piece is missing.
pub proof fn law_messages_keep_progress(
    session: SessionView,
    tracker: TrackerView,
    stats: StatsView,
    addr: Seq<char>,
    message: MessageView,
    held: int,
)
    requires
        session.consistent(),
        can_handle(session, tracker, stats, addr, message),
        contains_piece(tracker.have, held),
    ensures
        ({
            let step = message_step(session, tracker, stats, addr, message);
            &&& contains_piece(step.tracker.have, held)
            &&& step.outcome matches Ok(reaction) ==> reaction.complete ==> all_present(
                step.tracker.have,
            )
        }),
{
}

/// A session never leaves a piece claimed that we have, neither when it claims a piece nor when
/// it handles a message.
pub proof fn law_sessions_claim_only_needed_pieces(
    session: SessionView,
    tracker: TrackerView,
    stats: StatsView,
    addr: Seq<char>,
    message: MessageView,
)
    requires
        session.consistent(),
        tracker.consistent(),
        tracker.hashes.len() <= 0x1_0000_0000,
        tracker.claims_needed_only(),
        can_handle(session, tracker, stats, addr, message),
    ensures
        claim_step(session, tracker).1.claims_needed_only(),
        message_step(session, tracker, stats, addr, message).tracker.claims_needed_only(),
{
    let index: int = match message {
        MessageView::Have(index) => index as int,
        MessageView::Piece { index, .. } => index as int,
        _ => match session.current {
            Some(piece) => piece.index as int,
            None => 0,
        },
    };
    law_only_needed_pieces_are_claimed(tracker, session.peer_has, index);
    match message {
        MessageView::Bitfield(bits) => {
            let peer_has = unpack_bits(bits, session.geometry.num_pieces);
            law_only_needed_pieces_are_claimed(tracker, peer_has, index);
        },
        _ => {},
    }
}

/// A session that cannot deliver gives its piece back: after a choke, a pause, a cancel, a
/// timeout or the end of the connection nothing is being downloaded, and the piece is free to be
/// reserved again.
pub proof fn law_a_piece_is_never_stranded(
    session: SessionView,
    tracker: TrackerView,
    stats: StatsView,
    addr: Seq<char>,
)
    requires
        session.consistent(),
        tracker.consistent(),
    ensures
        session.idle().current is None,
        session.current matches Some(piece) ==> !contains_piece(
            session.released(tracker).claimed,
            piece.index as int,
        ),
        ({
            let step = message_step(session, tracker, stats, addr, MessageView::Choke);
            &&& step.session.choked
            &&& step.session.current is None
            &&& step.tracker == session.released(tracker)
        }),
{
}

/// An idle, unchoked session takes up work wherever the peer has a piece that we need, even one
/// that another peer has claimed; where there is none it stays idle. It reports completion only
/// where no piece is missing.
pub proof fn law_claim_takes_up_any_needed_piece(session: SessionView, tracker: TrackerView)
    requires
        session.consistent(),
        tracker.consistent(),
        session.current is None,
        !session.choked,
    ensures
        claim_step(session, tracker).0.current is Some <==> exists|i: int|
            0 <= i < tracker.hashes.len() && !#[trigger] tracker.have[i] && contains_piece(
                session.peer_has,
                i,
            ),
        claim_step(session, tracker).2 ==> all_present(tracker.have),
{
    law_reservation_is_rarest_first(tracker, session.peer_has, true);
    law_reservation_is_rarest_first(tracker, session.peer_has, false);
    if exists|i: int|
        0 <= i < tracker.hashes.len() && !#[trigger] tracker.have[i] && contains_piece(
            session.peer_has,
            i,
        ) {
        let i = choose|i: int|
            0 <= i < tracker.hashes.len() && !#[trigger] tracker.have[i] && contains_piece(
                session.peer_has,
                i,
            );
        assert(tracker.eligible(session.peer_has, false, i));
        assert(!all_present(tracker.have));
    }
}

/// The pipeline is kept as full as it can be: after a refill either all its slots are in use or
/// every block of the current piece was requested.
pub proof fn law_pipeline_is_filled(session: SessionView)
    requires
        session.consistent(),
        !session.choked,
    ensures
        session.refilled().consistent(),
        session.current matches Some(piece) ==> session.refilled().in_flight
            == MAX_PIPELINED_REQUESTS || session.refilled().next_block == session.geometry.blocks(
            piece.index as nat,
        ),
{
}

/// A peer that answers requests with the bytes of the piece brings it to its end: each answer is
/// accepted, what is assembled stays true to the piece, and when it is whole it is reported as
/// exactly those bytes, where they have the expected digest and we do not have the piece yet.
pub proof fn law_honest_answers_complete_the_piece(
    session: SessionView,
    tracker: TrackerView,
    stats: StatsView,
    content: Seq<u8>,
    block: nat,
)
    requires
        session.consistent(),
        session.current is Some,
        assembled_from(session.current->0, content),
        block < session.geometry.blocks(session.current->0.index as nat),
    ensures
        ({
            let index = session.current->0.index;
            let request = session.request(index, block);
            let data = content.subrange(
                request.begin as int,
                request.begin + request.length as int,
            );
            let step = block_step(session, tracker, stats, index, request.begin, data);
            &&& step.outcome is Ok
            &&& match step.session.current {
                Some(piece) => piece.index == index && assembled_from(piece, content),
                None => contains_piece(tracker.have, index as int) || (tracker.verifies(
                    index as int,
                    content,
                ) ==> step.outcome->Ok_0.piece == Some((index, content))),
            }
        }),
{
    let piece = session.current->0;
    let index = piece.index;
    let request = session.request(index, block);
    let length = session.geometry.block(index as nat, block).1;
    assert(request.begin == block * 16384);
    assert(request.length == length);
    let data = content.subrange(request.begin as int, request.begin + request.length as int);
    law_assembly_keeps_content(piece, content, block, length);
    let after = piece.after_delivery(request.begin, data);
    assert(assembled_from(after, content));
    if all_present(after.received) {
        assert forall|k: int| 0 <= k < content.len() implies after.data[k] == content[k] by {
            assert(after.received[k / 16384]);
        }
        assert(after.data =~= content);
    }
}

} // verus!
