//! The search for peers: trackers are tried in turn until one of them knows some.

use vstd::prelude::*;
use crate::metainfo::{add_new, first_appearances, law_trackers_without_repeats, texts};
use crate::tracker::PeerAddr;

verus! {

/// A search for peers.
#[derive(Debug)]
pub struct PeerSearch {
    /// The trackers, in the order in which they are tried.
    pub trackers: Vec<String>,
    /// How many of them were tried.
    pub tried: usize,
    /// The peers found, each where it first appeared.
    pub peers: Vec<PeerAddr>,
}

/// A [`PeerSearch`] over plain values.
#[verifier::ext_equal]
pub struct SearchView {
    pub trackers: Seq<Seq<char>>,
    pub tried: nat,
    pub peers: Seq<PeerAddr>,
}

impl View for PeerSearch {
    type V = SearchView;

    open spec fn view(&self) -> SearchView {
        SearchView {
            trackers: texts(self.trackers@),
            tried: self.tried as nat,
            peers: self.peers@,
        }
    }
}

impl SearchView {
    /// Whether the search is over: some peers are known, or no tracker is left.
    pub open spec fn is_over(self) -> bool {
        self.peers.len() > 0 || self.tried >= self.trackers.len()
    }

    /// After a tracker announced `found`.
    pub open spec fn with_peers(self, found: Seq<PeerAddr>) -> SearchView {
        SearchView { peers: add_all_new(self.peers, found), ..self }
    }
}

/// The items with more of them, each unless it is there already.
pub open spec fn add_all_new<T>(items: Seq<T>, more: Seq<T>) -> Seq<T>
    decreases more.len(),
{
    if more.len() == 0 {
        items
    } else {
        add_new(add_all_new(items, more.drop_last()), more.last())
    }
}

impl PeerSearch {
    /// A search over `trackers`.
    pub fn new(trackers: Vec<String>) -> (search: Self)
        ensures
            search@ == (SearchView {
                trackers: texts(trackers@),
                tried: 0,
                peers: Seq::empty(),
            }),
    {
        PeerSearch { trackers, tried: 0, peers: Vec::new() }
    }

    /// The next tracker to announce to, or `None` where the search is over: it stops early once
    /// there are some peers.
    pub fn next_tracker(&mut self) -> (url: Option<String>)
        ensures
            if old(self)@.is_over() {
                url is None && final(self)@ == old(self)@
            } else {
                &&& url matches Some(tracker)
                &&& tracker@ == old(self)@.trackers[old(self)@.tried as int]
                &&& final(self)@ == (SearchView { tried: old(self)@.tried + 1, ..old(self)@ })
            },
    {
        if self.peers.len() > 0 || self.tried >= self.trackers.len() {
            return None;
        }
        let url: String = self.trackers[self.tried].clone();
        self.tried = self.tried + 1;
        Some(url)
    }

    /// A tracker announced these peers.
    pub fn add_peers(&mut self, found: &Vec<PeerAddr>)
        ensures
            final(self)@ == old(self)@.with_peers(found@),
    {
        let ghost before = self.peers@;
        let mut i: usize = 0;
        assert(found@.take(0) =~= Seq::<PeerAddr>::empty());
        while i < found.len()
            invariant
                i <= found@.len(),
                self.trackers == old(self).trackers,
                self.tried == old(self).tried,
                self.peers@ == add_all_new(before, found@.take(i as int)),
            decreases found@.len() - i,
        {
            let addr: PeerAddr = found[i];
            let mut known: bool = false;
            let mut k: usize = 0;
            while k < self.peers.len()
                invariant
                    k <= self.peers@.len(),
                    known == (exists|j: int| 0 <= j < k && #[trigger] self.peers@[j] == addr),
                decreases self.peers@.len() - k,
            {
                if self.peers[k] == addr {
                    known = true;
                }
                k += 1;
            }
            assert(known == self.peers@.contains(addr));
            if !known {
                self.peers.push(addr);
            }
            assert(found@.take(i + 1).drop_last() =~= found@.take(i as int));
            i += 1;
        }
        assert(found@.take(i as int) =~= found@);
    }

    /// The peers that were found; `None` where no tracker announced any.
    pub fn finish(self) -> (peers: Option<Vec<PeerAddr>>)
        ensures
            if self@.peers.len() == 0 {
                peers is None
            } else {
                peers matches Some(found) && found@ == self@.peers
            },
    {
        if self.peers.len() == 0 {
            None
        } else {
            Some(self.peers)
        }
    }
}

/// The first tracker that announces a peer ends the search, and the peers are those that it
/// announced, each once and where it first appears.
pub proof fn law_first_answer_ends_the_search(search: SearchView, found: Seq<PeerAddr>)
    requires
        search.peers.len() == 0,
    ensures
        search.with_peers(found).peers == first_appearances(found),
        search.with_peers(found).peers.no_duplicates(),
        forall|addr: PeerAddr|
            search.with_peers(found).peers.contains(addr) <==> found.contains(addr),
        found.len() > 0 ==> search.with_peers(found).is_over(),
        found.len() == 0 ==> search.with_peers(found) == search,
{
    assert(search.peers =~= Seq::empty());
    lemma_add_all_to_none(found);
    law_trackers_without_repeats(found);
    if found.len() > 0 {
        assert(found.contains(found[0]));
        assert(first_appearances(found).contains(found[0]));
    } else {
        assert(search.with_peers(found) =~= search);
    }
}

proof fn lemma_add_all_to_none<T>(more: Seq<T>)
    ensures
        add_all_new(Seq::empty(), more) == first_appearances(more),
    decreases more.len(),
{
    if more.len() > 0 {
        lemma_add_all_to_none(more.drop_last());
    }
}

} // verus!
