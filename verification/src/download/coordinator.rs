//! The state of one torrent's download, as all its peer sessions share it.

use vstd::prelude::*;
use crate::download::bitfield::{all_present, contains_piece, count_present, lemma_count_present};
use crate::download::piece::{geometry_of, Geometry, GeometryView};
use crate::download::session::{
    can_handle, claim_step, fresh_session, message_step, ControlState, Directive, Reaction, Session,
};
use crate::download::state::{PieceTracker, TrackerView};
use crate::download::stats::{
    fresh_peer, shows_peers, PeerEntry, StatsSnapshot, StatsView, SwarmStats,
};
use crate::error::{outcome, Fault, Result};
use crate::metainfo::{length_fits, piece_hash, Info, InfoHash, InfoView};
use crate::peer::message::low_u32;
use crate::peer::{Message, PeerId};

verus! {

/// Drives a torrent download across a set of peers: the shared state, and what a frontend may
/// ask of it.
#[derive(Debug)]
pub struct Coordinator {
    name: String,
    geometry: Geometry,
    tracker: PieceTracker,
    stats: SwarmStats,
    control: ControlState,
    info_hash: InfoHash,
    peer_id: PeerId,
}

/// A [`Coordinator`] over plain values.
#[verifier::ext_equal]
pub struct CoordinatorView {
    pub name: Seq<char>,
    pub geometry: GeometryView,
    pub tracker: TrackerView,
    pub stats: StatsView,
    pub control: ControlState,
    pub info_hash: Seq<u8>,
    pub peer_id: Seq<u8>,
}

impl View for Coordinator {
    type V = CoordinatorView;

    closed spec fn view(&self) -> CoordinatorView {
        CoordinatorView {
            name: self.name@,
            geometry: self.geometry@,
            tracker: self.tracker@,
            stats: self.stats@,
            control: self.control,
            info_hash: self.info_hash@,
            peer_id: self.peer_id@,
        }
    }
}

/// The tracker of a torrent whose download has not begun.
pub open spec fn fresh_tracker(info: InfoView) -> TrackerView {
    let n = info.pieces.len() / 20;
    TrackerView {
        hashes: Seq::new(n, |i: int| piece_hash(info.pieces, i)),
        have: Seq::new(n, |i: int| false),
        availability: Seq::new(n, |i: int| 0u32),
        claimed: Seq::new(n, |i: int| false),
    }
}

/// Why an info dictionary cannot be downloaded, if it cannot.
pub open spec fn coordinator_fault(info: InfoView) -> Option<Fault> {
    match geometry_of(info) {
        Err(fault) => Some(fault),
        Ok(_) => if info.pieces.len() % 20 != 0 {
            Some(Fault::InvalidPiecesLength(info.pieces.len()))
        } else {
            None
        },
    }
}

/// The bytes of those of the first `upto` pieces that we have.
pub open spec fn bytes_held(geometry: GeometryView, have: Seq<bool>, upto: nat) -> nat
    decreases upto,
{
    if upto == 0 {
        0
    } else {
        let last = (upto - 1) as nat;
        bytes_held(geometry, have, last) + if contains_piece(have, last as int) {
            geometry.piece_len(last)
        } else {
            0
        }
    }
}

/// What a snapshot shows.
pub open spec fn is_snapshot(snapshot: StatsSnapshot, state: CoordinatorView) -> bool {
    let shown = state.tracker.hashes.len() % 0x1_0000_0000;
    &&& snapshot.name@ == state.name
    &&& snapshot.total_pieces == shown
    &&& snapshot.pieces_done == count_present(state.tracker.have.take(shown as int))
    &&& snapshot.total_bytes == state.geometry.total_length
    &&& snapshot.bytes_done == bytes_held(state.geometry, state.tracker.have, shown)
    &&& snapshot.wire_bytes == state.stats.total_downloaded
    &&& snapshot.connected_peers == state.stats.peers.dom().len()
    &&& snapshot.complete == all_present(state.tracker.have)
    &&& snapshot.paused == (state.control == ControlState::Paused)
    &&& shows_peers(snapshot.peers@, state.stats.peers)
}

impl Coordinator {
    /// Build a coordinator for a torrent.
    pub fn new(info: &Info, info_hash: InfoHash, peer_id: PeerId) -> (result: Result<Self>)
        requires
            length_fits(info@),
        ensures
            match coordinator_fault(info@) {
                Some(fault) => result matches Err(error) && error@ == fault,
                None => {
                    &&& result matches Ok(coordinator)
                    &&& coordinator@ == (CoordinatorView {
                        name: info@.name,
                        geometry: geometry_of(info@)->Ok_0,
                        tracker: fresh_tracker(info@),
                        stats: StatsView {
                            total_downloaded: 0,
                            peers: Map::<Seq<char>, PeerEntry>::empty(),
                        },
                        control: ControlState::Running,
                        info_hash: info_hash@,
                        peer_id: peer_id@,
                    })
                },
            },
    {
        let geometry: Geometry = match Geometry::from_info(info) {
            Err(error) => return Err(error),
            Ok(geometry) => geometry,
        };
        let tracker: PieceTracker = match PieceTracker::from_info(info) {
            Err(error) => return Err(error),
            Ok(tracker) => tracker,
        };
        let coordinator = Coordinator {
            name: info.name.clone(),
            geometry,
            tracker,
            stats: SwarmStats::new(),
            control: ControlState::Running,
            info_hash,
            peer_id,
        };
        assert(coordinator@.tracker =~= fresh_tracker(info@));
        Ok(coordinator)
    }

    /// Suspend the download: peers stop requesting new blocks and idle.
    pub fn pause(&mut self)
        ensures
            final(self)@ == (CoordinatorView { control: ControlState::Paused, ..old(self)@ }),
    {
        self.control = ControlState::Paused;
    }

    /// Resume a paused download.
    pub fn resume(&mut self)
        ensures
            final(self)@ == (CoordinatorView { control: ControlState::Running, ..old(self)@ }),
    {
        self.control = ControlState::Running;
    }

    /// Abort the download: every peer session shuts down.
    pub fn cancel(&mut self)
        ensures
            final(self)@ == (CoordinatorView { control: ControlState::Cancelled, ..old(self)@ }),
    {
        self.control = ControlState::Cancelled;
    }

    /// The current control state.
    pub fn control_state(&self) -> (state: ControlState)
        ensures
            state == self@.control,
    {
        self.control
    }

    /// The piece tracker (e.g. to inspect progress).
    pub fn tracker(&self) -> (tracker: &PieceTracker)
        ensures
            tracker@ == self@.tracker,
    {
        &self.tracker
    }

    /// The live statistics.
    pub fn stats(&self) -> (stats: &SwarmStats)
        ensures
            stats@ == self@.stats,
    {
        &self.stats
    }

    /// The sizes of the torrent.
    pub fn geometry(&self) -> (geometry: Geometry)
        ensures
            geometry@ == self@.geometry,
    {
        self.geometry
    }

    /// The torrent being downloaded.
    pub fn info_hash(&self) -> (info_hash: InfoHash)
        ensures
            info_hash@ == self@.info_hash,
    {
        self.info_hash
    }

    /// Our peer ID.
    pub fn peer_id(&self) -> (peer_id: PeerId)
        ensures
            peer_id@ == self@.peer_id,
    {
        self.peer_id
    }

    /// A peer is connected: its session starts.
    pub fn open_session(&mut self, addr: &str) -> (session: Session)
        ensures
            session@.consistent(),
            session@ == fresh_session(old(self)@.geometry),
            final(self)@ == (CoordinatorView {
                stats: StatsView {
                    peers: old(self)@.stats.peers.insert(addr@, fresh_peer()),
                    ..old(self)@.stats
                },
                ..old(self)@
            }),
    {
        self.stats.peer_connected(addr);
        Session::new(self.geometry)
    }

    /// A session ends, for whatever reason: its piece is free for another peer, and the peer is
    /// no longer shown.
    pub fn close_session(&mut self, session: &mut Session, addr: &str)
        requires
            old(session)@.consistent(),
        ensures
            final(session)@.consistent(),
            final(session)@ == (if old(session)@.current is Some {
                old(session)@.idle()
            } else {
                old(session)@
            }),
            final(self)@ == (CoordinatorView {
                tracker: old(session)@.released(old(self)@.tracker),
                stats: StatsView {
                    peers: old(self)@.stats.peers.remove(addr@),
                    ..old(self)@.stats
                },
                ..old(self)@
            }),
    {
        session.on_closed(&mut self.tracker);
        self.stats.peer_disconnected(addr);
    }

    /// The control state, brought to a session.
    pub fn direct(&mut self, session: &mut Session) -> (directive: Directive)
        requires
            old(session)@.consistent(),
        ensures
            final(session)@.consistent(),
            if old(self)@.control == ControlState::Running {
                &&& directive == Directive::Proceed
                &&& final(session)@ == old(session)@
                &&& final(self)@ == old(self)@
            } else {
                &&& directive == (if old(self)@.control == ControlState::Paused {
                    Directive::Wait
                } else {
                    Directive::Stop
                })
                &&& final(session)@ == (if old(session)@.current is Some {
                    old(session)@.idle()
                } else {
                    old(session)@
                })
                &&& final(self)@ == (CoordinatorView {
                    tracker: old(session)@.released(old(self)@.tracker),
                    ..old(self)@
                })
            },
    {
        session.on_control(self.control, &mut self.tracker)
    }

    /// A session looks for a piece to work on. Returns `true` where the torrent is complete.
    pub fn claim(&mut self, session: &mut Session) -> (complete: bool)
        requires
            old(session)@.consistent(),
        ensures
            final(session)@.consistent(),
            ({
                let (after, tracker, done) = claim_step(old(session)@, old(self)@.tracker);
                &&& final(session)@ == after
                &&& final(self)@ == (CoordinatorView { tracker, ..old(self)@ })
                &&& complete == done
            }),
    {
        session.claim(&mut self.tracker)
    }

    /// The blocks that a session requested did not arrive in time.
    pub fn time_out(&mut self, session: &mut Session)
        requires
            old(session)@.consistent(),
        ensures
            final(session)@.consistent(),
            final(session)@ == old(session)@.idle(),
            final(self)@ == (CoordinatorView {
                tracker: old(session)@.released(old(self)@.tracker),
                ..old(self)@
            }),
    {
        session.on_timeout(&mut self.tracker);
    }

    /// Whether [`deliver`](Self::deliver) may be called.
    pub fn can_deliver(&self, session: &Session, addr: &str, message: &Message) -> (ok: bool)
        requires
            session@.consistent(),
        ensures
            ok == can_handle(session@, self@.tracker, self@.stats, addr@, message@),
    {
        session.can_handle(message, addr, &self.tracker, &self.stats)
    }

    /// A message from a peer, brought to its session. After an error the session is to be
    /// closed.
    pub fn deliver(&mut self, session: &mut Session, addr: &str, message: Message) -> (result:
        Result<Reaction>)
        requires
            old(session)@.consistent(),
            can_handle(
                old(session)@,
                old(self)@.tracker,
                old(self)@.stats,
                addr@,
                message@,
            ),
        ensures
            final(session)@.consistent(),
            ({
                let step = message_step(
                    old(session)@,
                    old(self)@.tracker,
                    old(self)@.stats,
                    addr@,
                    message@,
                );
                &&& final(session)@ == step.session
                &&& final(self)@ == (CoordinatorView {
                    tracker: step.tracker,
                    stats: step.stats,
                    ..old(self)@
                })
                &&& outcome(result) == step.outcome
            }),
    {
        session.on_message(message, addr, &mut self.tracker, &mut self.stats)
    }

    /// A point-in-time snapshot of download progress for display.
    pub fn snapshot(&self) -> (snapshot: StatsSnapshot)
        ensures
            is_snapshot(snapshot, self@),
    {
        proof {
            use_type_invariant(&self.tracker);
            use_type_invariant(&self.geometry);
        }
        let total_pieces: u32 = low_u32(self.tracker.num_pieces());
        let ghost have = self@.tracker.have;
        let mut pieces_done: u32 = 0;
        let mut bytes_done: u64 = 0;
        let mut i: u32 = 0;
        assert(have.take(0) =~= Seq::<bool>::empty());
        while i < total_pieces
            invariant
                i <= total_pieces,
                have == self.tracker@.have,
                total_pieces <= have.len(),
                self.geometry@.consistent(),
                pieces_done <= i,
                pieces_done == count_present(have.take(i as int)),
                bytes_done <= i * 0xffff_ffff,
                bytes_done == bytes_held(self.geometry@, have, i as nat),
            decreases total_pieces - i,
        {
            if self.tracker.has(i) {
                pieces_done += 1;
                bytes_done += self.geometry.piece_length(i) as u64;
            }
            assert(have.take(i + 1).drop_last() =~= have.take(i as int));
            i += 1;
        }
        StatsSnapshot {
            name: self.name.clone(),
            total_pieces,
            pieces_done,
            total_bytes: self.geometry.total_length(),
            bytes_done,
            wire_bytes: self.stats.total_downloaded(),
            connected_peers: self.stats.connected_count(),
            complete: self.tracker.is_complete(),
            paused: self.control == ControlState::Paused,
            peers: self.stats.peer_snapshots(),
        }
    }
}

/// The bytes held never exceed the content; they are the whole content when, and only when, no
/// piece is missing, and then all pieces are counted as done.
pub proof fn law_progress_reaches_the_total(geometry: GeometryView, have: Seq<bool>)
    requires
        geometry.consistent(),
        have.len() == geometry.num_pieces,
    ensures
        bytes_held(geometry, have, have.len()) <= geometry.total_length,
        bytes_held(geometry, have, have.len()) == geometry.total_length <==> all_present(have),
        count_present(have) == have.len() <==> all_present(have),
{
    lemma_count_present(have);
    lemma_bytes_held(geometry, have, have.len());
    let n = geometry.num_pieces;
    let last = (n - 1) as nat;
    lemma_bytes_held(geometry, have, last);
    assert(bytes_held(geometry, have, n) == bytes_held(geometry, have, last) + if contains_piece(
        have,
        last as int,
    ) {
        geometry.last_piece_length
    } else {
        0
    });
    assert(have.take(last as int) =~= have.drop_last());
    if all_present(have) {
        assert(have[last as int]);
        assert(all_present(have.take(last as int)));
    } else if bytes_held(geometry, have, n) == geometry.total_length {
        assert(have[last as int]);
        assert(all_present(have.take(last as int)));
        assert forall|i: int| 0 <= i < have.len() implies have[i] by {
            if i < last {
                assert(have.take(last as int)[i]);
            }
        }
    }
}

/// The first pieces are of full length, so that the bytes held are at most so many.
proof fn lemma_bytes_held(geometry: GeometryView, have: Seq<bool>, upto: nat)
    requires
        geometry.consistent(),
        have.len() == geometry.num_pieces,
        upto <= have.len(),
    ensures
        upto < have.len() ==> bytes_held(geometry, have, upto) <= upto * geometry.piece_length,
        upto < have.len() ==> (bytes_held(geometry, have, upto) == upto * geometry.piece_length
            <==> all_present(have.take(upto as int))),
        bytes_held(geometry, have, upto) <= geometry.total_length,
    decreases upto,
{
    if upto > 0 {
        let before = (upto - 1) as nat;
        lemma_bytes_held(geometry, have, before);
        assert(upto * geometry.piece_length == before * geometry.piece_length
            + geometry.piece_length) by (nonlinear_arith)
            requires
                upto == before + 1,
        ;
        let now = have.take(upto as int);
        let then = have.take(before as int);
        if all_present(now) {
            assert forall|i: int| 0 <= i < then.len() implies then[i] by {
                assert(now[i]);
            }
            assert(now[before as int]);
        }
        if all_present(then) && have[before as int] {
            assert forall|i: int| 0 <= i < now.len() implies now[i] by {
                if i < before {
                    assert(then[i]);
                }
            }
        }
        if upto < have.len() {
            assert(upto * geometry.piece_length <= (geometry.num_pieces - 1)
                * geometry.piece_length) by (nonlinear_arith)
                requires
                    upto <= geometry.num_pieces - 1,
            ;
        }
    }
}

} // verus!
