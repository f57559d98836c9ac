//! The account of a download: what came over the wire covers what was kept of it.

use vstd::prelude::*;
use crate::download::bitfield::{all_present, contains_piece};
use crate::download::coordinator::{bytes_held, is_snapshot, CoordinatorView};
use crate::download::piece::{block_count, block_len, GeometryView};
use crate::download::session::{can_handle, claim_step, fresh_session, message_step, SessionView};
use crate::download::state::with_piece;
use crate::download::stats::StatsSnapshot;
use crate::peer::message::MessageView;

verus! {

/// The bytes of those of the first `upto` blocks that were received.
pub open spec fn received_bytes(length: nat, received: Seq<bool>, upto: nat) -> nat
    decreases upto,
{
    if upto == 0 {
        0
    } else {
        let last = (upto - 1) as nat;
        received_bytes(length, received, last) + if contains_piece(received, last as int) {
            block_len(length, last)
        } else {
            0
        }
    }
}

/// The bytes of the blocks that a session holds of the piece in work.
pub open spec fn in_work(session: SessionView) -> nat {
    match session.current {
        Some(piece) => received_bytes(piece.data.len(), piece.received, piece.received.len()),
        None => 0,
    }
}

/// The bytes of the blocks that sessions hold of the pieces in work.
pub open spec fn all_in_work(sessions: Seq<SessionView>) -> nat
    decreases sessions.len(),
{
    if sessions.len() == 0 {
        0
    } else {
        all_in_work(sessions.drop_last()) + in_work(sessions.last())
    }
}

/// The bytes of the pieces that we have.
pub open spec fn kept(state: CoordinatorView) -> nat {
    bytes_held(state.geometry, state.tracker.have, state.tracker.have.len())
}

/// Whether the bytes that came over the wire are at least those of the pieces that we have and
/// of the blocks in work.
pub open spec fn covered(state: CoordinatorView, sessions: Seq<SessionView>) -> bool {
    state.stats.total_downloaded >= kept(state) + all_in_work(sessions)
}

/// Whether the count of bytes received still fits in 64 bits after a message.
pub open spec fn countable(total: u64, message: MessageView) -> bool {
    message matches MessageView::Piece { data, .. } ==> total + data.len() <= u64::MAX
}

/// Whether sessions belong to a torrent.
pub open spec fn sessions_of(state: CoordinatorView, sessions: Seq<SessionView>) -> bool {
    &&& state.geometry.consistent()
    &&& state.tracker.consistent()
    &&& state.tracker.hashes.len() == state.geometry.num_pieces
    &&& forall|i: int|
        0 <= i < sessions.len() ==> (#[trigger] sessions[i]).consistent()
            && sessions[i].geometry == state.geometry
}

/// A torrent whose download has not begun is covered: nothing came, and nothing is kept.
pub proof fn law_nothing_is_kept_at_first(state: CoordinatorView)
    requires
        forall|i: int| 0 <= i < state.tracker.have.len() ==> !state.tracker.have[i],
    ensures
        covered(state, Seq::empty()),
{
    lemma_nothing_held(state.geometry, state.tracker.have, state.tracker.have.len());
}

/// What a session does by itself leaves the account covered: when it starts or ends, gives its
/// piece back, claims a piece or makes requests.
pub proof fn law_sessions_keep_the_account(
    state: CoordinatorView,
    sessions: Seq<SessionView>,
    at: int,
)
    requires
        sessions_of(state, sessions),
        covered(state, sessions),
        0 <= at < sessions.len(),
    ensures
        covered(state, sessions.push(fresh_session(state.geometry))),
        covered(state, sessions.remove(at)),
        covered(
            CoordinatorView { tracker: sessions[at].released(state.tracker), ..state },
            sessions.update(at, sessions[at].idle()),
        ),
        ({
            let (session, tracker, _) = claim_step(sessions[at], state.tracker);
            covered(CoordinatorView { tracker, ..state }, sessions.update(at, session))
        }),
        covered(state, sessions.update(at, sessions[at].refilled())),
{
    let session = sessions[at];
    assert(sessions.push(fresh_session(state.geometry)).drop_last() =~= sessions);
    lemma_all_without(sessions, at);
    lemma_all_after(sessions, at, session.idle());
    lemma_all_after(sessions, at, session.refilled());
    let (claimed, _, _) = claim_step(session, state.tracker);
    lemma_all_after(sessions, at, claimed);
    match claimed.current {
        Some(piece) => if session.current is None {
            lemma_none_received(piece.data.len(), piece.received, piece.received.len());
        },
        None => {},
    }
}

/// A message leaves the account covered: what it adds to the pieces kept and in work came over
/// the wire.
pub proof fn law_wire_bytes_cover_progress(
    state: CoordinatorView,
    sessions: Seq<SessionView>,
    at: int,
    addr: Seq<char>,
    message: MessageView,
)
    requires
        sessions_of(state, sessions),
        covered(state, sessions),
        0 <= at < sessions.len(),
        can_handle(sessions[at], state.tracker, state.stats, addr, message),
        countable(state.stats.total_downloaded, message),
    ensures
        ({
            let step = message_step(sessions[at], state.tracker, state.stats, addr, message);
            covered(
                CoordinatorView { tracker: step.tracker, stats: step.stats, ..state },
                sessions.update(at, step.session),
            )
        }),
{
    let step = message_step(sessions[at], state.tracker, state.stats, addr, message);
    lemma_all_after(sessions, at, step.session);
    lemma_message_is_covered(state, sessions[at], addr, message);
}

/// A snapshot shows at least as many wire bytes as bytes of verified pieces.
pub proof fn law_wire_bytes_reach_bytes_done(
    state: CoordinatorView,
    sessions: Seq<SessionView>,
    snapshot: StatsSnapshot,
)
    requires
        sessions_of(state, sessions),
        covered(state, sessions),
        is_snapshot(snapshot, state),
    ensures
        snapshot.wire_bytes >= snapshot.bytes_done,
{
}

/// A message brings at least as many bytes as it adds to what is kept and in work.
proof fn lemma_message_is_covered(
    state: CoordinatorView,
    session: SessionView,
    addr: Seq<char>,
    message: MessageView,
)
    requires
        sessions_of(state, seq![session]),
        session.consistent(),
        session.geometry == state.geometry,
        can_handle(session, state.tracker, state.stats, addr, message),
        countable(state.stats.total_downloaded, message),
    ensures
        ({
            let step = message_step(session, state.tracker, state.stats, addr, message);
            let after = CoordinatorView { tracker: step.tracker, stats: step.stats, ..state };
            step.stats.total_downloaded + kept(state) + in_work(session)
                >= state.stats.total_downloaded + kept(after) + in_work(step.session)
        }),
{
    match message {
        MessageView::Piece { index, begin, data } => match session.current {
            Some(piece) => if piece.index == index && piece.rejects(begin, data.len()) is None
                && !piece.falls_short(begin, data.len()) {
                let after = piece.after_delivery(begin, data);
                let block = begin as nat / 16384;
                let length = piece.data.len();
                assert(after.data.len() == length);
                lemma_received_after(length, piece.received, block, piece.received.len());
                if all_present(after.received) {
                    lemma_all_received(length, after.received, after.received.len());
                    lemma_held_after(
                        state.geometry,
                        state.tracker.have,
                        index as nat,
                        state.tracker.have.len(),
                    );
                }
            },
            None => {},
        },
        _ => {},
    }
}

proof fn lemma_nothing_held(geometry: GeometryView, have: Seq<bool>, upto: nat)
    requires
        forall|i: int| 0 <= i < have.len() ==> !have[i],
    ensures
        bytes_held(geometry, have, upto) == 0,
    decreases upto,
{
    if upto > 0 {
        lemma_nothing_held(geometry, have, (upto - 1) as nat);
    }
}

/// A piece that we did not have adds its bytes to those held.
proof fn lemma_held_after(geometry: GeometryView, have: Seq<bool>, index: nat, upto: nat)
    requires
        index < have.len(),
    ensures
        bytes_held(geometry, with_piece(have, index as int, true), upto) == bytes_held(
            geometry,
            have,
            upto,
        ) + if index < upto && !have[index as int] {
            geometry.piece_len(index)
        } else {
            0
        },
    decreases upto,
{
    if upto > 0 {
        lemma_held_after(geometry, have, index, (upto - 1) as nat);
    }
}

/// A block that was not received adds its bytes to those received.
proof fn lemma_received_after(length: nat, received: Seq<bool>, block: nat, upto: nat)
    requires
        block < received.len(),
    ensures
        received_bytes(length, received.update(block as int, true), upto) == received_bytes(
            length,
            received,
            upto,
        ) + if block < upto && !received[block as int] {
            block_len(length, block)
        } else {
            0
        },
    decreases upto,
{
    if upto > 0 {
        lemma_received_after(length, received, block, (upto - 1) as nat);
    }
}

/// The blocks of a piece that is whole have all its bytes.
proof fn lemma_all_received(length: nat, received: Seq<bool>, upto: nat)
    requires
        all_present(received),
        received.len() == block_count(length),
        upto <= received.len(),
    ensures
        received_bytes(length, received, upto) == if upto * 16384 <= length {
            upto * 16384
        } else {
            length
        },
        upto == received.len() ==> received_bytes(length, received, upto) == length,
    decreases upto,
{
    if upto > 0 {
        lemma_all_received(length, received, (upto - 1) as nat);
        assert(received[upto - 1]);
    }
}

proof fn lemma_none_received(length: nat, received: Seq<bool>, upto: nat)
    requires
        forall|i: int| 0 <= i < received.len() ==> !received[i],
    ensures
        received_bytes(length, received, upto) == 0,
    decreases upto,
{
    if upto > 0 {
        lemma_none_received(length, received, (upto - 1) as nat);
    }
}

/// What is in work once one session changed.
proof fn lemma_all_after(sessions: Seq<SessionView>, at: int, session: SessionView)
    requires
        0 <= at < sessions.len(),
    ensures
        all_in_work(sessions.update(at, session)) + in_work(sessions[at]) == all_in_work(sessions)
            + in_work(session),
    decreases sessions.len(),
{
    let after = sessions.update(at, session);
    if at == sessions.len() - 1 {
        assert(after.drop_last() =~= sessions.drop_last());
    } else {
        assert(after.drop_last() =~= sessions.drop_last().update(at, session));
        lemma_all_after(sessions.drop_last(), at, session);
    }
}

/// What is in work once one session is gone.
proof fn lemma_all_without(sessions: Seq<SessionView>, at: int)
    requires
        0 <= at < sessions.len(),
    ensures
        all_in_work(sessions.remove(at)) + in_work(sessions[at]) == all_in_work(sessions),
    decreases sessions.len(),
{
    let after = sessions.remove(at);
    if at == sessions.len() - 1 {
        assert(after =~= sessions.drop_last());
    } else {
        assert(after.drop_last() =~= sessions.drop_last().remove(at));
        assert(after.last() == sessions.last());
        lemma_all_without(sessions.drop_last(), at);
    }
}

} // verus!
