//! The download of one torrent as its frontend sees it.

use vstd::prelude::*;
use crate::download::bitfield::lemma_count_present;
use crate::download::coordinator::{bytes_held, Coordinator, CoordinatorView};
use crate::download::piece::GeometryView;
use crate::download::session::{ControlState, Directive, Reaction, Session, SessionView};
use crate::download::state::PieceTracker;
use crate::download::stats::{
    stat_entries, PeerEntry, PeerStat, StatsSnapshot, StatsView, SwarmStats,
};
use crate::error::{outcome, Result};
use crate::keyed::{lemma_entry_map_dom, lemma_entry_map_get, lemma_entry_map_len};
use crate::laws::{lemma_total, total_of};
use crate::laws::pieces::{lemma_present, present};
use crate::laws::progress::{is_free, is_wanted};
use crate::laws::swarm::{freed, gave_up, has_all, looked_for_work, now_shows};
use crate::laws::torrent::has_one_form;
use crate::metainfo::{Info, InfoHash};
use crate::peer::PeerId;
use crate::peer::message::Message;

verus! {

// The statistics.

/// Whether nothing changed but the peer at `addr`.
pub open spec fn other_peers_untouched(
    before: StatsView,
    after: StatsView,
    addr: Seq<char>,
) -> bool {
    forall|other: Seq<char>|
        #![trigger after.peers.dom().contains(other)]
        #![trigger before.peers.dom().contains(other)]
        #![trigger after.peers[other]]
        other != addr ==> after.peers.dom().contains(other) == before.peers.dom().contains(other)
            && (before.peers.dom().contains(other) ==> after.peers[other] == before.peers[other])
}

/// At first nothing was received and no peer is connected.
pub proof fn law_statistics_begin_empty(stats: SwarmStats, probe: &SwarmStats, n: usize, total: u64)
    requires
        call_ensures(SwarmStats::new, (), stats),
        call_ensures(SwarmStats::connected_count, (probe,), n),
        call_ensures(SwarmStats::total_downloaded, (probe,), total),
        probe@ == stats@,
    ensures
        n == 0,
        total == 0,
{
}

/// A peer that connects is shown as choking us, with no piece and no byte; one that disconnects is
/// shown no longer. No other peer, and no count of bytes, is touched.
pub proof fn law_peers_come_and_go(
    stats: &mut SwarmStats,
    addr: &str,
    connected: (),
    leaving: &mut SwarmStats,
    gone: &str,
    disconnected: (),
)
    requires
        call_ensures(SwarmStats::peer_connected, (stats, addr), connected),
        call_ensures(SwarmStats::peer_disconnected, (leaving, gone), disconnected),
    ensures
        final(stats)@.total_downloaded == old(stats)@.total_downloaded,
        other_peers_untouched(old(stats)@, final(stats)@, addr@),
        final(stats)@.peers.dom().contains(addr@),
        final(stats)@.peers[addr@] == (PeerEntry { choked: true, have_pieces: 0, downloaded: 0 }),
        final(leaving)@.total_downloaded == old(leaving)@.total_downloaded,
        other_peers_untouched(old(leaving)@, final(leaving)@, gone@),
        !final(leaving)@.peers.dom().contains(gone@),
{
}

/// What is noted of a peer is shown of that peer and no other, and only where it is connected.
pub proof fn law_peers_are_noted(
    stats: &mut SwarmStats,
    addr: &str,
    choked: bool,
    first: (),
    others: &mut SwarmStats,
    have_pieces: u32,
    second: (),
)
    requires
        call_ensures(SwarmStats::set_choked, (stats, addr, choked), first),
        call_ensures(SwarmStats::set_have_count, (others, addr, have_pieces), second),
    ensures
        final(stats)@.total_downloaded == old(stats)@.total_downloaded,
        now_shows(
            old(stats)@,
            final(stats)@,
            addr@,
            PeerEntry { choked, ..old(stats)@.peers[addr@] },
        ),
        final(others)@.total_downloaded == old(others)@.total_downloaded,
        now_shows(
            old(others)@,
            final(others)@,
            addr@,
            PeerEntry { have_pieces, ..old(others)@.peers[addr@] },
        ),
{
}

/// Bytes that are received are added to the total, and to the count of their peer where it is
/// connected; whether they can be is told truly.
pub proof fn law_bytes_are_counted(
    stats: &mut SwarmStats,
    addr: &str,
    len: u64,
    result: (),
    probe: &SwarmStats,
    can_count: bool,
)
    requires
        call_ensures(SwarmStats::record_block, (stats, addr, len), result),
        call_ensures(SwarmStats::can_count, (probe, addr, len), can_count),
        probe@ == old(stats)@,
    ensures
        can_count <==> (old(stats)@.peers.dom().contains(addr@)
            ==> old(stats)@.peers[addr@].downloaded + len <= 0xffff_ffff_ffff_ffff),
        final(stats)@.total_downloaded == (old(stats)@.total_downloaded + len)
            % 0x1_0000_0000_0000_0000,
        can_count ==> now_shows(
            old(stats)@,
            final(stats)@,
            addr@,
            PeerEntry {
                downloaded: (old(stats)@.peers[addr@].downloaded + len) as u64,
                ..old(stats)@.peers[addr@]
            },
        ),
{
}

/// Whether a list shows each of the peers once, as it is, those first from which the most bytes
/// came.
pub open spec fn lists_peers(list: Seq<PeerStat>, peers: Map<Seq<char>, PeerEntry>) -> bool {
    &&& forall|i: int|
        0 <= i < list.len() ==> {
            let stat = #[trigger] list[i];
            &&& peers.dom().contains(stat.addr@)
            &&& peers[stat.addr@].choked == stat.choked
            &&& peers[stat.addr@].have_pieces == stat.have_pieces
            &&& peers[stat.addr@].downloaded == stat.downloaded_bytes
        }
    &&& forall|addr: Seq<char>|
        #[trigger] peers.dom().contains(addr) ==> exists|i: int|
            0 <= i < list.len() && (#[trigger] list[i]).addr@ == addr
    &&& forall|i: int, j: int|
        0 <= i < j < list.len() ==> (#[trigger] list[i]).addr@ != (#[trigger] list[j]).addr@
    &&& forall|i: int, j: int|
        0 <= i < j < list.len() ==> (#[trigger] list[i]).downloaded_bytes >= (
        #[trigger] list[j]).downloaded_bytes
}

proof fn lemma_lists_peers(list: Seq<PeerStat>, peers: Map<Seq<char>, PeerEntry>)
    requires
        crate::download::stats::shows_peers(list, peers),
    ensures
        lists_peers(list, peers),
        peers.dom().len() == list.len(),
{
    let entries = stat_entries(list);
    lemma_entry_map_len(entries);
    assert forall|i: int| 0 <= i < list.len() implies {
        let stat = #[trigger] list[i];
        &&& peers.dom().contains(stat.addr@)
        &&& peers[stat.addr@].choked == stat.choked
        &&& peers[stat.addr@].have_pieces == stat.have_pieces
        &&& peers[stat.addr@].downloaded == stat.downloaded_bytes
    } by {
        lemma_entry_map_get(entries, i);
        assert(entries[i] == list[i].entry());
    }
    assert forall|addr: Seq<char>| #[trigger] peers.dom().contains(addr) implies exists|i: int|
        0 <= i < list.len() && (#[trigger] list[i]).addr@ == addr by {
        lemma_entry_map_dom(entries, addr);
        let i = choose|i: int| 0 <= i < entries.len() && (#[trigger] entries[i]).0 == addr;
        assert(list[i].entry() == entries[i]);
        assert(list[i].addr@ == addr);
    }
    assert forall|i: int, j: int| 0 <= i < j < list.len() implies (#[trigger] list[i]).addr@ != (
    #[trigger] list[j]).addr@ by {
        assert(entries[i].0 != entries[j].0);
    }
}

/// The peers are listed once each, as they are, those first from which the most bytes came.
pub proof fn law_all_peers_are_listed(stats: &SwarmStats, list: Vec<PeerStat>, n: usize)
    requires
        call_ensures(SwarmStats::peer_snapshots, (stats,), list),
        call_ensures(SwarmStats::connected_count, (stats,), n),
    ensures
        lists_peers(list@, stats@.peers),
        list@.len() == n,
{
    lemma_lists_peers(list@, stats@.peers);
}

// The download.

/// A download begins with nothing: it runs, no peer is connected, no piece is there. It can begin
/// just where the sizes of the torrent fit together and there is a whole number of digests.
pub proof fn law_downloads_begin_empty(
    info: &Info,
    info_hash: InfoHash,
    peer_id: PeerId,
    result: Result<Coordinator>,
)
    requires
        call_ensures(Coordinator::new, (info, info_hash, peer_id), result),
        info@.pieces.len() / 20 <= u32::MAX,
        total_of(info@) <= u64::MAX,
    ensures
        ({
            let n = info@.pieces.len() as int / 20;
            let length = info@.piece_length as int;
            let total = total_of(info@);
            &&& result is Ok <==> {
                &&& info@.pieces.len() % 20 == 0
                &&& has_one_form(info@)
                &&& 0 < length <= u32::MAX
                &&& 0 < n
                &&& (n - 1) * length < total <= n * length
            }
            &&& result matches Ok(download) ==> {
                &&& download@.name == info@.name
                &&& download@.info_hash == info_hash@
                &&& download@.peer_id == peer_id@
                &&& download@.control == ControlState::Running
                &&& download@.stats.total_downloaded == 0
                &&& forall|addr: Seq<char>| !#[trigger] download@.stats.peers.dom().contains(addr)
                &&& download@.geometry.consistent()
                &&& download@.geometry.num_pieces == n
                &&& download@.geometry.piece_length == length
                &&& download@.geometry.total_length == total
                &&& download@.tracker.consistent()
                &&& download@.tracker.hashes.len() == n
                &&& forall|i: int|
                    0 <= i < n ==> {
                        &&& #[trigger] download@.tracker.hashes[i] == info@.pieces.subrange(
                            20 * i,
                            20 * i + 20,
                        )
                        &&& !download@.tracker.have[i]
                        &&& !download@.tracker.claimed[i]
                        &&& download@.tracker.availability[i] == 0
                    }
            }
        }),
{
    lemma_total(info@);
    let n = info@.pieces.len() as int / 20;
    let length = info@.piece_length as int;
    assert(n * length == (n - 1) * length + length) by (nonlinear_arith);
}

/// A download does what it was last told, and nothing else changes when it is told.
pub proof fn law_downloads_do_what_they_are_told(
    paused: &mut Coordinator,
    first: (),
    resumed: &mut Coordinator,
    second: (),
    cancelled: &mut Coordinator,
    third: (),
    probe: &Coordinator,
    state: ControlState,
)
    requires
        call_ensures(Coordinator::pause, (paused,), first),
        call_ensures(Coordinator::resume, (resumed,), second),
        call_ensures(Coordinator::cancel, (cancelled,), third),
        call_ensures(Coordinator::control_state, (probe,), state),
    ensures
        state == probe@.control,
        final(paused)@ == (CoordinatorView { control: ControlState::Paused, ..old(paused)@ }),
        final(resumed)@ == (CoordinatorView { control: ControlState::Running, ..old(resumed)@ }),
        final(cancelled)@ == (CoordinatorView {
            control: ControlState::Cancelled,
            ..old(cancelled)@
        }),
{
}

/// Whether nothing of a download changed but its pieces and its statistics.
pub open spec fn same_download(before: CoordinatorView, after: CoordinatorView) -> bool {
    &&& after.name == before.name
    &&& after.geometry == before.geometry
    &&& after.control == before.control
    &&& after.info_hash == before.info_hash
    &&& after.peer_id == before.peer_id
}

/// A session that is opened begins choked, with nothing in work, and its peer is shown; nothing
/// else changes.
pub proof fn law_opened_sessions_are_shown(
    download: &mut Coordinator,
    addr: &str,
    session: Session,
)
    requires
        call_ensures(Coordinator::open_session, (download, addr), session),
    ensures
        session@.geometry == old(download)@.geometry,
        session@.choked,
        session@.current is None,
        session@.in_flight == 0,
        session@.next_block == 0,
        session@.peer_has.len() == old(download)@.geometry.num_pieces,
        forall|i: int| 0 <= i < session@.peer_has.len() ==> !#[trigger] session@.peer_has[i],
        same_download(old(download)@, final(download)@),
        final(download)@.tracker == old(download)@.tracker,
        final(download)@.stats.total_downloaded == old(download)@.stats.total_downloaded,
        other_peers_untouched(old(download)@.stats, final(download)@.stats, addr@),
        final(download)@.stats.peers.dom().contains(addr@),
        final(download)@.stats.peers[addr@] == (PeerEntry {
            choked: true,
            have_pieces: 0,
            downloaded: 0,
        }),
{
}

/// A session that is closed leaves nothing behind: its piece is free for others, and its peer is
/// shown no longer.
pub proof fn law_closed_sessions_leave_nothing(
    download: &mut Coordinator,
    session: &mut Session,
    addr: &str,
    result: (),
)
    requires
        call_ensures(Coordinator::close_session, (download, session, addr), result),
    ensures
        gave_up(old(session)@, final(session)@),
        same_download(old(download)@, final(download)@),
        freed(old(session)@, old(download)@.tracker, final(download)@.tracker),
        final(download)@.stats.total_downloaded == old(download)@.stats.total_downloaded,
        other_peers_untouched(old(download)@.stats, final(download)@.stats, addr@),
        !final(download)@.stats.peers.dom().contains(addr@),
{
}

/// Sessions go on just while the download runs; when it is paused they wait, when it is cancelled
/// they stop, and either way their pieces are free for others. So they are when their blocks do
/// not come.
pub proof fn law_sessions_are_directed(
    download: &mut Coordinator,
    session: &mut Session,
    directive: Directive,
    other: &mut Coordinator,
    silent: &mut Session,
    timed_out: (),
)
    requires
        call_ensures(Coordinator::direct, (download, session), directive),
        call_ensures(Coordinator::time_out, (other, silent), timed_out),
    ensures
        directive == Directive::Proceed <==> old(download)@.control == ControlState::Running,
        directive == Directive::Wait <==> old(download)@.control == ControlState::Paused,
        directive == Directive::Stop <==> old(download)@.control == ControlState::Cancelled,
        same_download(old(download)@, final(download)@),
        final(download)@.stats == old(download)@.stats,
        old(download)@.control == ControlState::Running ==> final(session)@ == old(session)@
            && final(download)@.tracker == old(download)@.tracker,
        old(download)@.control != ControlState::Running ==> {
            &&& gave_up(old(session)@, final(session)@)
            &&& final(session)@.choked == old(session)@.choked
            &&& freed(old(session)@, old(download)@.tracker, final(download)@.tracker)
        },
        same_download(old(other)@, final(other)@),
        final(other)@.stats == old(other)@.stats,
        gave_up(SessionView { next_block: 0, in_flight: 0, ..old(silent)@ }, final(silent)@),
        final(silent)@.choked == old(silent)@.choked,
        freed(old(silent)@, old(other)@.tracker, final(other)@.tracker),
{
}

/// A session of the download looks for work among the pieces of the download.
pub proof fn law_work_is_found_in_the_download(
    download: &mut Coordinator,
    session: &mut Session,
    complete: bool,
)
    requires
        old(session)@.consistent(),
        old(download)@.tracker.consistent(),
        call_ensures(Coordinator::claim, (download, session), complete),
    ensures
        same_download(old(download)@, final(download)@),
        final(download)@.stats == old(download)@.stats,
        looked_for_work(
            old(session)@,
            final(session)@,
            old(download)@.tracker,
            final(download)@.tracker,
            complete,
        ),
{
    crate::laws::progress::lemma_offers(old(download)@.tracker, old(session)@.peer_has);
    let peer_has = old(session)@.peer_has;
    let free = exists|i: int| is_free(old(download)@.tracker, peer_has, i);
    let wanted = exists|i: int| is_wanted(old(download)@.tracker, peer_has, i);
    assert(free <==> old(download)@.tracker.offer(peer_has, true) is Some);
    assert(wanted <==> old(download)@.tracker.offer(peer_has, false) is Some);
}

/// A message that is delivered to a session of the download does to the session, the pieces and
/// the statistics just what the session does with it, and nothing else.
pub proof fn law_deliveries_reach_the_session(
    download: &mut Coordinator,
    session: &mut Session,
    addr: &str,
    message: Message,
    result: Result<Reaction>,
    same: &mut Session,
    tracker: &mut PieceTracker,
    stats: &mut SwarmStats,
    direct: Result<Reaction>,
    ok: bool,
    can_handle: bool,
    probe: &Coordinator,
    asked: &Session,
    pieces: &PieceTracker,
    counts: &SwarmStats,
)
    requires
        call_ensures(Coordinator::deliver, (download, session, addr, message), result),
        call_ensures(Session::on_message, (same, message, addr, tracker, stats), direct),
        old(same)@ == old(session)@,
        old(tracker)@ == old(download)@.tracker,
        old(stats)@ == old(download)@.stats,
        call_ensures(Coordinator::can_deliver, (probe, asked, addr, &message), ok),
        call_ensures(Session::can_handle, (asked, &message, addr, pieces, counts), can_handle),
        pieces@ == probe@.tracker,
        counts@ == probe@.stats,
    ensures
        outcome(result) == outcome(direct),
        final(session)@ == final(same)@,
        final(download)@.tracker == final(tracker)@,
        final(download)@.stats == final(stats)@,
        same_download(old(download)@, final(download)@),
        ok == can_handle,
{
}

/// The bytes of those of the first `n` pieces that are there, all but the last piece of the torrent
/// having the nominal length.
pub open spec fn bytes_there(geometry: GeometryView, have: Seq<bool>, n: int) -> int
    decreases n,
{
    if n <= 0 {
        0
    } else {
        bytes_there(geometry, have, n - 1) + if !have[n - 1] {
            0int
        } else if n == geometry.num_pieces {
            geometry.total_length - (n - 1) * geometry.piece_length
        } else {
            geometry.piece_length as int
        }
    }
}

proof fn lemma_bytes_there(geometry: GeometryView, have: Seq<bool>, n: nat)
    requires
        geometry.consistent(),
        n <= have.len(),
    ensures
        bytes_there(geometry, have, n as int) == bytes_held(geometry, have, n),
    decreases n,
{
    if n > 0 {
        lemma_bytes_there(geometry, have, (n - 1) as nat);
    }
}

/// A snapshot shows the download as it is: how many pieces are there and how many bytes they have,
/// how many bytes came over the wire, whether anything is missing, whether it is paused, and every
/// peer.
pub proof fn law_snapshots_show_the_download(download: &Coordinator, snapshot: StatsSnapshot)
    requires
        call_ensures(Coordinator::snapshot, (download,), snapshot),
        download@.geometry.consistent(),
        download@.tracker.consistent(),
        download@.tracker.hashes.len() == download@.geometry.num_pieces,
    ensures
        snapshot.name@ == download@.name,
        snapshot.total_pieces == download@.tracker.have.len(),
        snapshot.pieces_done == present(download@.tracker.have).len(),
        snapshot.total_bytes == download@.geometry.total_length,
        snapshot.bytes_done == bytes_there(
            download@.geometry,
            download@.tracker.have,
            download@.tracker.have.len() as int,
        ),
        snapshot.wire_bytes == download@.stats.total_downloaded,
        snapshot.complete <==> has_all(download@.tracker.have),
        snapshot.complete <==> snapshot.pieces_done == snapshot.total_pieces,
        snapshot.paused <==> download@.control == ControlState::Paused,
        snapshot.connected_peers == snapshot.peers@.len(),
        lists_peers(snapshot.peers@, download@.stats.peers),
{
    let have = download@.tracker.have;
    assert(have.take(have.len() as int) =~= have);
    lemma_present(have);
    lemma_count_present(have);
    lemma_bytes_there(download@.geometry, have, have.len());
    lemma_lists_peers(snapshot.peers@, download@.stats.peers);
}

} // verus!
