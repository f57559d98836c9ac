use torrentina::SwarmStats;

fn addr(p: u16) -> String {
    format!("127.0.0.1:{p}")
}

#[test]
fn tracks_peer_lifecycle_and_bytes() {
    let mut s = SwarmStats::new();
    s.peer_connected(&addr(1));
    s.peer_connected(&addr(2));
    assert_eq!(s.connected_count(), 2);

    s.set_choked(&addr(1), false);
    s.set_have_count(&addr(1), 5);
    s.record_block(&addr(1), 16384);
    s.record_block(&addr(2), 1024);

    assert_eq!(s.total_downloaded(), 16384 + 1024);

    let snaps = s.peer_snapshots();
    // Sorted by bytes downloaded, descending.
    assert_eq!(snaps[0].addr, addr(1).to_string());
    assert!(!snaps[0].choked);
    assert_eq!(snaps[0].have_pieces, 5);
    assert_eq!(snaps[0].downloaded_bytes, 16384);

    s.peer_disconnected(&addr(1));
    assert_eq!(s.connected_count(), 1);
}

#[test]
fn unknown_peers_change_only_the_total() {
    let mut s = SwarmStats::default();
    s.set_choked(&addr(9), false);
    s.set_have_count(&addr(9), 3);
    s.peer_disconnected(&addr(9));
    s.record_block(&addr(9), 10);
    assert_eq!(s.connected_count(), 0);
    assert_eq!(s.total_downloaded(), 10);
    assert!(s.peer_snapshots().is_empty());
}

#[test]
fn reconnecting_starts_a_peer_afresh() {
    let mut s = SwarmStats::new();
    s.peer_connected(&addr(1));
    s.set_choked(&addr(1), false);
    s.set_have_count(&addr(1), 7);
    s.record_block(&addr(1), 10);
    s.peer_connected(&addr(1));
    let snaps = s.peer_snapshots();
    assert_eq!(snaps.len(), 1);
    assert!(snaps[0].choked);
    assert_eq!((snaps[0].have_pieces, snaps[0].downloaded_bytes), (0, 0));
    assert_eq!(s.total_downloaded(), 10);
}

#[test]
fn snapshots_go_from_most_to_least() {
    let mut s = SwarmStats::new();
    for (port, bytes) in [(1u16, 30u64), (2, 50), (3, 10), (4, 50)] {
        s.peer_connected(&addr(port));
        s.record_block(&addr(port), bytes);
    }
    let bytes: Vec<u64> = s.peer_snapshots().iter().map(|p| p.downloaded_bytes).collect();
    assert_eq!(bytes, vec![50, 50, 30, 10]);
}

#[test]
fn counters_tell_when_they_are_full() {
    let mut s = SwarmStats::new();
    s.peer_connected(&addr(1));
    s.record_block(&addr(1), u64::MAX);
    assert!(!s.can_count(&addr(1), 1));
    assert!(s.can_count(&addr(1), 0));
    assert!(s.can_count(&addr(2), 1));
    // The total wraps around.
    s.record_block(&addr(2), 2);
    assert_eq!(s.total_downloaded(), 1);
}
