//! Live download statistics, shared between the engine and any frontend.
//!
//! [`SwarmStats`] is updated by the peer tasks as they connect, get choked/unchoked, learn peer
//! bitfields, and receive blocks. A [`StatsSnapshot`] is a point-in-time view the CLI or GUI can
//! render; a frontend derives download *rate* from the delta between snapshots.
//!
//! Peers are known by the text of their address.

use vstd::prelude::*;
use crate::keyed::{
    distinct_keys, entry_map, lemma_entry_map_dom, lemma_entry_map_get, lemma_entry_map_insert,
    lemma_entry_map_len, lemma_entry_map_push, lemma_entry_map_remove, lemma_entry_map_update,
};

verus! {

/// Per-peer live state.
#[derive(Debug, Clone, Copy, PartialEq, Eq, Structural)]
pub struct PeerEntry {
    /// Whether this peer is currently choking us.
    pub choked: bool,
    /// How many pieces the peer advertises having.
    pub have_pieces: u32,
    /// Bytes received from this peer so far.
    pub downloaded: u64,
}

/// What a peer starts out with: it chokes us until it sends `Unchoke`.
pub open spec fn fresh_peer() -> PeerEntry {
    PeerEntry { choked: true, have_pieces: 0, downloaded: 0 }
}

impl Default for PeerEntry {
    fn default() -> (entry: Self)
        ensures
            entry == fresh_peer(),
    {
        PeerEntry { choked: true, have_pieces: 0, downloaded: 0 }
    }
}

/// The swarm statistics, over plain values.
#[verifier::ext_equal]
pub struct StatsView {
    /// Total wire bytes received across all peers, modulo 2^64.
    pub total_downloaded: u64,
    /// Per-peer state by address.
    pub peers: Map<Seq<char>, PeerEntry>,
}

impl StatsView {
    /// A peer's state changed, where the peer is known.
    pub open spec fn with_peer(self, addr: Seq<char>, entry: PeerEntry) -> StatsView {
        if self.peers.dom().contains(addr) {
            StatsView { peers: self.peers.insert(addr, entry), ..self }
        } else {
            self
        }
    }

    /// Whether `len` more bytes can be counted for the peer.
    pub open spec fn can_count(self, addr: Seq<char>, len: nat) -> bool {
        self.peers.dom().contains(addr) ==> self.peers[addr].downloaded + len <= u64::MAX
    }

    /// `len` bytes received from a peer.
    pub open spec fn after_block(self, addr: Seq<char>, len: u64) -> StatsView {
        StatsView {
            total_downloaded: ((self.total_downloaded + len) % 0x1_0000_0000_0000_0000) as u64,
            ..self
        }.with_peer(
            addr,
            PeerEntry {
                downloaded: (self.peers[addr].downloaded + len) as u64,
                ..self.peers[addr]
            },
        )
    }
}

/// A single peer's state in a snapshot.
#[derive(Debug, PartialEq, Eq)]
pub struct PeerStat {
    pub addr: String,
    pub choked: bool,
    pub have_pieces: u32,
    pub downloaded_bytes: u64,
}

impl PeerStat {
    /// The address with the peer's state.
    pub open spec fn entry(self) -> (Seq<char>, PeerEntry) {
        (
            self.addr@,
            PeerEntry {
                choked: self.choked,
                have_pieces: self.have_pieces,
                downloaded: self.downloaded_bytes,
            },
        )
    }
}

impl Clone for PeerStat {
    fn clone(&self) -> (copy: Self)
        ensures
            copy.entry() == self.entry(),
    {
        PeerStat {
            addr: self.addr.clone(),
            choked: self.choked,
            have_pieces: self.have_pieces,
            downloaded_bytes: self.downloaded_bytes,
        }
    }
}

/// The addresses and states in a list.
pub open spec fn stat_entries(stats: Seq<PeerStat>) -> Seq<(Seq<char>, PeerEntry)> {
    Seq::new(stats.len(), |i: int| stats[i].entry())
}

/// Whether a list goes from the most bytes downloaded to the least.
pub open spec fn most_bytes_first(stats: Seq<PeerStat>) -> bool {
    forall|i: int, j: int|
        0 <= i <= j < stats.len() ==> (#[trigger] stats[i]).downloaded_bytes >= (
        #[trigger] stats[j]).downloaded_bytes
}

/// Whether a list shows every one of `peers` exactly once, those with the most bytes first.
pub open spec fn shows_peers(stats: Seq<PeerStat>, peers: Map<Seq<char>, PeerEntry>) -> bool {
    &&& distinct_keys(stat_entries(stats))
    &&& entry_map(stat_entries(stats)) == peers
    &&& most_bytes_first(stats)
}

/// A point-in-time view of overall download progress.
#[derive(Debug, PartialEq, Eq)]
pub struct StatsSnapshot {
    /// Torrent name.
    pub name: String,
    /// Total number of pieces.
    pub total_pieces: u32,
    /// Pieces downloaded and verified.
    pub pieces_done: u32,
    /// Total content length in bytes.
    pub total_bytes: u64,
    /// Bytes accounted for by verified pieces.
    pub bytes_done: u64,
    /// Total wire bytes received (>= `bytes_done`; counts any re-downloads too).
    pub wire_bytes: u64,
    /// Currently connected peers.
    pub connected_peers: usize,
    /// Whether the whole torrent is complete.
    pub complete: bool,
    /// Whether the download is currently paused.
    pub paused: bool,
    /// Per-peer detail.
    pub peers: Vec<PeerStat>,
}

impl Clone for StatsSnapshot {
    fn clone(&self) -> (copy: Self)
        ensures
            copy.name@ == self.name@,
            copy.total_pieces == self.total_pieces,
            copy.pieces_done == self.pieces_done,
            copy.total_bytes == self.total_bytes,
            copy.bytes_done == self.bytes_done,
            copy.wire_bytes == self.wire_bytes,
            copy.connected_peers == self.connected_peers,
            copy.complete == self.complete,
            copy.paused == self.paused,
            stat_entries(copy.peers@) == stat_entries(self.peers@),
    {
        let mut peers: Vec<PeerStat> = Vec::new();
        let mut i: usize = 0;
        while i < self.peers.len()
            invariant
                i <= self.peers@.len(),
                peers@.len() == i,
                forall|k: int| 0 <= k < i ==> (#[trigger] peers@[k]).entry() == self.peers@[k].entry(),
            decreases self.peers@.len() - i,
        {
            peers.push(self.peers[i].clone());
            i += 1;
        }
        assert(stat_entries(peers@) =~= stat_entries(self.peers@));
        StatsSnapshot {
            name: self.name.clone(),
            total_pieces: self.total_pieces,
            pieces_done: self.pieces_done,
            total_bytes: self.total_bytes,
            bytes_done: self.bytes_done,
            wire_bytes: self.wire_bytes,
            connected_peers: self.connected_peers,
            complete: self.complete,
            paused: self.paused,
            peers,
        }
    }
}

/// Swarm statistics.
#[derive(Debug)]
pub struct SwarmStats {
    total_downloaded: u64,
    peers: Vec<PeerStat>,
}

impl View for SwarmStats {
    type V = StatsView;

    closed spec fn view(&self) -> StatsView {
        StatsView {
            total_downloaded: self.total_downloaded,
            peers: entry_map(stat_entries(self.peers@)),
        }
    }
}

impl Default for SwarmStats {
    fn default() -> (stats: Self)
        ensures
            stats@.total_downloaded == 0,
            stats@.peers == Map::<Seq<char>, PeerEntry>::empty(),
    {
        SwarmStats::new()
    }
}

impl SwarmStats {
    /// No peer stands twice.
    #[verifier::type_invariant]
    spec fn well_formed(self) -> bool {
        distinct_keys(stat_entries(self.peers@))
    }

    pub fn new() -> (stats: Self)
        ensures
            stats@.total_downloaded == 0,
            stats@.peers == Map::<Seq<char>, PeerEntry>::empty(),
    {
        SwarmStats { total_downloaded: 0, peers: Vec::new() }
    }

    /// Where a peer stands in the list.
    fn find(&self, addr: &str) -> (at: Option<usize>)
        ensures
            match at {
                Some(i) => {
                    &&& i < self.peers@.len()
                    &&& self.peers@[i as int].addr@ == addr@
                    &&& self@.peers.dom().contains(addr@)
                    &&& self@.peers[addr@] == self.peers@[i as int].entry().1
                },
                None => {
                    &&& forall|i: int|
                        0 <= i < self.peers@.len() ==> (#[trigger] self.peers@[i]).addr@ != addr@
                    &&& !self@.peers.dom().contains(addr@)
                },
            },
    {
        proof {
            use_type_invariant(self);
        }
        let key: String = addr.to_owned();
        let ghost entries = stat_entries(self.peers@);
        let mut i: usize = 0;
        while i < self.peers.len()
            invariant
                i <= self.peers@.len(),
                key@ == addr@,
                entries == stat_entries(self.peers@),
                distinct_keys(entries),
                forall|k: int| 0 <= k < i ==> (#[trigger] self.peers@[k]).addr@ != addr@,
            decreases self.peers@.len() - i,
        {
            if self.peers[i].addr == key {
                proof {
                    lemma_entry_map_get(entries, i as int);
                    assert(entries[i as int] == self.peers@[i as int].entry());
                }
                return Some(i);
            }
            i += 1;
        }
        proof {
            lemma_entry_map_dom(entries, addr@);
            assert forall|k: int| 0 <= k < entries.len() implies (#[trigger] entries[k]).0
                != addr@ by {
                assert(self.peers@[k].addr@ != addr@);
            }
        }
        None
    }

    /// Puts `entry` in the place of the state of peer number `at`.
    fn replace(&mut self, at: usize, entry: PeerEntry)
        requires
            at < old(self).peers@.len(),
        ensures
            final(self)@.total_downloaded == old(self)@.total_downloaded,
            final(self)@.peers == old(self)@.peers.insert(
                old(self).peers@[at as int].addr@,
                entry,
            ),
    {
        proof {
            use_type_invariant(&*self);
        }
        let ghost before = self.peers@;
        let ghost entries = stat_entries(self.peers@);
        let stat = PeerStat {
            addr: self.peers[at].addr.clone(),
            choked: entry.choked,
            have_pieces: entry.have_pieces,
            downloaded_bytes: entry.downloaded,
        };
        proof {
            lemma_entry_map_update(entries, at as int, entry);
            assert(entries[at as int] == before[at as int].entry());
            assert(stat_entries(before.update(at as int, stat)) =~= entries.update(
                at as int,
                (entries[at as int].0, entry),
            ));
        }
        let mut whole = SwarmStats::new();
        std::mem::swap(self, &mut whole);
        let SwarmStats { total_downloaded, mut peers } = whole;
        peers.set(at, stat);
        *self = SwarmStats { total_downloaded, peers };
    }

    /// Register a freshly connected peer.
    pub fn peer_connected(&mut self, addr: &str)
        ensures
            final(self)@ == (StatsView {
                peers: old(self)@.peers.insert(addr@, fresh_peer()),
                ..old(self)@
            }),
    {
        match self.find(addr) {
            Some(at) => {
                self.replace(at, PeerEntry::default());
            },
            None => {
                proof {
                    use_type_invariant(&*self);
                }
                let stat = PeerStat {
                    addr: addr.to_owned(),
                    choked: true,
                    have_pieces: 0,
                    downloaded_bytes: 0,
                };
                let ghost entries = stat_entries(self.peers@);
                proof {
                    assert forall|k: int| 0 <= k < entries.len() implies (#[trigger] entries[k]).0
                        != addr@ by {
                        assert(self.peers@[k].addr@ != addr@);
                    }
                    lemma_entry_map_push(entries, addr@, fresh_peer());
                    assert(stat_entries(self.peers@.push(stat)) =~= entries.push(
                        (addr@, fresh_peer()),
                    ));
                }
                let mut whole = SwarmStats::new();
                std::mem::swap(self, &mut whole);
                let SwarmStats { total_downloaded, mut peers } = whole;
                peers.push(stat);
                *self = SwarmStats { total_downloaded, peers };
            },
        }
        assert(self@ =~= (StatsView {
            peers: old(self)@.peers.insert(addr@, fresh_peer()),
            ..old(self)@
        }));
    }

    /// Remove a peer that has disconnected.
    pub fn peer_disconnected(&mut self, addr: &str)
        ensures
            final(self)@ == (StatsView { peers: old(self)@.peers.remove(addr@), ..old(self)@ }),
    {
        match self.find(addr) {
            Some(at) => {
                proof {
                    use_type_invariant(&*self);
                    let entries = stat_entries(self.peers@);
                    lemma_entry_map_remove(entries, at as int);
                    assert(entries[at as int] == self.peers@[at as int].entry());
                    assert(stat_entries(self.peers@.remove(at as int)) =~= entries.remove(
                        at as int,
                    ));
                }
                let mut whole = SwarmStats::new();
                std::mem::swap(self, &mut whole);
                let SwarmStats { total_downloaded, mut peers } = whole;
                peers.remove(at);
                *self = SwarmStats { total_downloaded, peers };
            },
            None => {},
        }
        assert(self@ =~= (StatsView { peers: old(self)@.peers.remove(addr@), ..old(self)@ }));
    }

    /// Update whether a peer is choking us.
    pub fn set_choked(&mut self, addr: &str, choked: bool)
        ensures
            final(self)@ == old(self)@.with_peer(
                addr@,
                PeerEntry { choked, ..old(self)@.peers[addr@] },
            ),
    {
        match self.find(addr) {
            Some(at) => {
                let have_pieces: u32 = self.peers[at].have_pieces;
                let downloaded: u64 = self.peers[at].downloaded_bytes;
                self.replace(at, PeerEntry { choked, have_pieces, downloaded });
            },
            None => {},
        }
        assert(self@ =~= old(self)@.with_peer(
            addr@,
            PeerEntry { choked, ..old(self)@.peers[addr@] },
        ));
    }

    /// Record how many pieces a peer advertises.
    pub fn set_have_count(&mut self, addr: &str, have_pieces: u32)
        ensures
            final(self)@ == old(self)@.with_peer(
                addr@,
                PeerEntry { have_pieces, ..old(self)@.peers[addr@] },
            ),
    {
        match self.find(addr) {
            Some(at) => {
                let choked: bool = self.peers[at].choked;
                let downloaded: u64 = self.peers[at].downloaded_bytes;
                self.replace(at, PeerEntry { choked, have_pieces, downloaded });
            },
            None => {},
        }
        assert(self@ =~= old(self)@.with_peer(
            addr@,
            PeerEntry { have_pieces, ..old(self)@.peers[addr@] },
        ));
    }

    /// Whether `len` more bytes can be counted for a peer, so that
    /// [`record_block`](Self::record_block) may be called.
    pub fn can_count(&self, addr: &str, len: u64) -> (ok: bool)
        ensures
            ok == self@.can_count(addr@, len as nat),
    {
        match self.find(addr) {
            Some(at) => len <= u64::MAX - self.peers[at].downloaded_bytes,
            None => true,
        }
    }

    /// Record `len` bytes received from a peer.
    pub fn record_block(&mut self, addr: &str, len: u64)
        requires
            old(self)@.can_count(addr@, len as nat),
        ensures
            final(self)@ == old(self)@.after_block(addr@, len),
    {
        proof {
            use_type_invariant(&*self);
        }
        self.total_downloaded = self.total_downloaded.wrapping_add(len);
        match self.find(addr) {
            Some(at) => {
                let choked: bool = self.peers[at].choked;
                let have_pieces: u32 = self.peers[at].have_pieces;
                let downloaded: u64 = self.peers[at].downloaded_bytes + len;
                self.replace(at, PeerEntry { choked, have_pieces, downloaded });
            },
            None => {},
        }
        assert(self@ =~= old(self)@.after_block(addr@, len));
    }

    /// Number of currently connected peers.
    pub fn connected_count(&self) -> (n: usize)
        ensures
            n == self@.peers.dom().len(),
    {
        proof {
            use_type_invariant(self);
            lemma_entry_map_len(stat_entries(self.peers@));
        }
        self.peers.len()
    }

    /// Total wire bytes received so far.
    pub fn total_downloaded(&self) -> (total: u64)
        ensures
            total == self@.total_downloaded,
    {
        self.total_downloaded
    }

    /// A snapshot of per-peer state for display, most bytes downloaded first.
    pub fn peer_snapshots(&self) -> (stats: Vec<PeerStat>)
        ensures
            shows_peers(stats@, self@.peers),
    {
        proof {
            use_type_invariant(self);
        }
        let ghost entries = stat_entries(self.peers@);
        let mut sorted: Vec<PeerStat> = Vec::new();
        let mut i: usize = 0;
        assert(entry_map(entries.take(0)) =~= entry_map(stat_entries(sorted@)));
        while i < self.peers.len()
            invariant
                i <= self.peers@.len(),
                entries == stat_entries(self.peers@),
                distinct_keys(entries),
                shows_peers(sorted@, entry_map(entries.take(i as int))),
            decreases self.peers@.len() - i,
        {
            proof {
                let front = entries.take(i as int);
                assert(entries.take(i + 1).drop_last() =~= front);
                assert(entries.take(i + 1).last() == self.peers@[i as int].entry());
                lemma_entry_map_dom(front, self.peers@[i as int].addr@);
                assert(!entry_map(front).dom().contains(self.peers@[i as int].addr@)) by {
                    if exists|k: int|
                        0 <= k < front.len() && (#[trigger] front[k]).0
                            == self.peers@[i as int].addr@ {
                        let k = choose|k: int|
                            0 <= k < front.len() && (#[trigger] front[k]).0
                                == self.peers@[i as int].addr@;
                        assert(entries[k].0 == entries[i as int].0);
                    }
                }
            }
            insert_by_bytes(&mut sorted, self.peers[i].clone());
            i += 1;
        }
        assert(entries.take(i as int) =~= entries);
        sorted
    }
}

/// Puts `stat` behind those that have at least as many bytes.
fn insert_by_bytes(sorted: &mut Vec<PeerStat>, stat: PeerStat)
    requires
        distinct_keys(stat_entries(old(sorted)@)),
        most_bytes_first(old(sorted)@),
        !entry_map(stat_entries(old(sorted)@)).dom().contains(stat.addr@),
    ensures
        shows_peers(
            final(sorted)@,
            entry_map(stat_entries(old(sorted)@)).insert(stat.addr@, stat.entry().1),
        ),
{
    let ghost before = sorted@;
    let mut at: usize = 0;
    while at < sorted.len() && sorted[at].downloaded_bytes >= stat.downloaded_bytes
        invariant
            at <= sorted@.len(),
            sorted@ == before,
            forall|k: int|
                0 <= k < at ==> (#[trigger] sorted@[k]).downloaded_bytes >= stat.downloaded_bytes,
        decreases sorted@.len() - at,
    {
        at += 1;
    }
    sorted.insert(at, stat);
    proof {
        let entries = stat_entries(before);
        lemma_entry_map_insert(entries, at as int, stat.entry());
        assert(stat_entries(sorted@) =~= entries.insert(at as int, stat.entry()));
        let after = sorted@;
        assert forall|i: int, j: int| 0 <= i <= j < after.len() implies (
        #[trigger] after[i]).downloaded_bytes >= (#[trigger] after[j]).downloaded_bytes by {
            if j < at {
                assert(before[i].downloaded_bytes >= before[j].downloaded_bytes);
            } else if i > at {
                assert(before[i - 1].downloaded_bytes >= before[j - 1].downloaded_bytes);
            } else if i == at && j > at {
                assert(before[at as int].downloaded_bytes >= before[j - 1].downloaded_bytes);
            } else if i < at && j > at {
                assert(before[i].downloaded_bytes >= before[j - 1].downloaded_bytes);
            }
        }
    }
}

} // verus!
