use sha1::{Digest, Sha1};
use torrentina::download::Bitfield;
use torrentina::{Error, Info, PieceTracker};

fn info_with_hashes(hashes: &[[u8; 20]]) -> Info {
    let mut pieces = Vec::new();
    for h in hashes {
        pieces.extend_from_slice(h);
    }
    Info {
        name: "t".into(),
        piece_length: 16384,
        pieces,
        length: Some(16384 * hashes.len() as u64),
        files: None,
        private: None,
    }
}

fn full_bitfield(n: usize) -> Bitfield {
    let mut bf = Bitfield::new(n);
    for i in 0..n {
        bf.set(i);
    }
    bf
}

#[test]
fn reserve_prefers_rarest_and_claims_exclusively() {
    let mut t = PieceTracker::from_info(&info_with_hashes(&[[0; 20]; 3])).unwrap();
    let all = full_bitfield(3);

    // Make piece 2 the rarest (availability 0), 0 and 1 more common.
    t.add_availability(0);
    t.add_availability(0);
    t.add_availability(1);

    // First reservation grabs the rarest, piece 2.
    assert_eq!(t.reserve_piece(&all), Some(2));
    // Next grabs piece 1 (availability 1 < piece 0's 2); 2 is now claimed.
    assert_eq!(t.reserve_piece(&all), Some(1));
    // Then piece 0.
    assert_eq!(t.reserve_piece(&all), Some(0));
    // Nothing left to claim.
    assert_eq!(t.reserve_piece(&all), None);
}

#[test]
fn does_not_reserve_pieces_we_have_or_peer_lacks() {
    let mut t = PieceTracker::from_info(&info_with_hashes(&[[0; 20]; 3])).unwrap();
    t.mark_have(0);

    // Peer only has piece 1.
    let mut peer = Bitfield::new(3);
    peer.set(1);
    assert_eq!(t.reserve_piece(&peer), Some(1));
    assert_eq!(t.reserve_piece(&peer), None); // 0 we have, 2 peer lacks
}

#[test]
fn release_allows_reclaiming() {
    let mut t = PieceTracker::from_info(&info_with_hashes(&[[0; 20]; 2])).unwrap();
    let all = full_bitfield(2);
    let a = t.reserve_piece(&all).unwrap();
    t.release_piece(a);
    // Released piece is available again.
    assert!(t.reserve_piece(&all).is_some());
}

#[test]
fn endgame_reservation_ignores_claims_but_not_have() {
    let mut t = PieceTracker::from_info(&info_with_hashes(&[[0; 20]; 2])).unwrap();
    let all = full_bitfield(2);

    // Claim both pieces exclusively; nothing left for a normal reservation.
    assert!(t.reserve_piece(&all).is_some());
    assert!(t.reserve_piece(&all).is_some());
    assert_eq!(t.reserve_piece(&all), None);

    // Endgame still offers a claimed-but-needed piece...
    assert!(t.reserve_piece_endgame(&all).is_some());
    // ...but never one we already have.
    t.mark_have(0);
    t.mark_have(1);
    assert_eq!(t.reserve_piece_endgame(&all), None);
}

#[test]
fn removing_availability_is_saturating_and_changes_rarest_order() {
    let mut t = PieceTracker::from_info(&info_with_hashes(&[[0; 20]; 2])).unwrap();
    let only_0 = {
        let mut bf = Bitfield::new(2);
        bf.set(0);
        bf
    };
    let only_1 = {
        let mut bf = Bitfield::new(2);
        bf.set(1);
        bf
    };
    let all = full_bitfield(2);

    // Availability ends at piece 0 = 2, piece 1 = 1, so piece 1 is rarest and gets reserved
    // first.
    t.add_bitfield_availability(&only_1);
    t.add_bitfield_availability(&only_0);
    t.add_bitfield_availability(&only_0);
    assert_eq!(t.reserve_piece(&all), Some(1));
    t.release_piece(1);

    // One piece-0 holder disconnects: piece 0 drops to availability 1, tying piece 1, so the
    // tie-break now hands out piece 0 first: the decrement demonstrably shifted selection.
    t.remove_bitfield_availability(&only_0);
    assert_eq!(t.reserve_piece(&all), Some(0));

    // Over-removing past zero must saturate, not underflow/panic.
    t.remove_bitfield_availability(&all);
    t.remove_bitfield_availability(&all);
}

#[test]
fn verify_and_complete() {
    let data = b"hello piece";
    let hash: [u8; 20] = Sha1::digest(data).into();
    let mut t = PieceTracker::from_info(&info_with_hashes(&[hash])).unwrap();

    assert!(t.verify(0, data));
    assert!(!t.verify(0, b"wrong"));

    assert!(!t.is_complete());
    t.mark_have(0);
    assert!(t.is_complete());
}

#[test]
fn pieces_out_of_range_are_never_verified_or_held() {
    let hash: [u8; 20] = Sha1::digest(b"x").into();
    let mut t = PieceTracker::from_info(&info_with_hashes(&[hash])).unwrap();
    assert!(!t.verify(1, b"x"));
    assert!(t.expects(0, &hash));
    assert!(!t.expects(1, &hash));
    assert!(!t.expects(0, &[0; 20]));
    t.mark_have(9);
    t.release_piece(9);
    t.add_availability(9);
    assert!(!t.has(9));
    assert!(!t.is_complete());
    assert_eq!(t.num_pieces(), 1);
    assert_eq!(t.have_bitfield().count(), 0);
}

#[test]
fn tracker_rejects_a_ragged_hash_blob() {
    let mut info = info_with_hashes(&[[0; 20]]);
    info.pieces.push(0);
    assert!(matches!(PieceTracker::from_info(&info), Err(Error::InvalidPiecesLength(21))));
}

#[test]
fn joining_and_leaving_leaves_no_trace() {
    let mut t = PieceTracker::from_info(&info_with_hashes(&[[0; 20]; 3])).unwrap();
    t.add_availability(1);
    let all = full_bitfield(3);
    assert!(t.has_room(&all));
    assert!(t.can_add(0) && t.can_add(77));
    t.add_bitfield_availability(&all);
    t.remove_bitfield_availability(&all);
    // Piece 1 is still the most common one.
    assert_eq!(t.reserve_piece(&all), Some(0));
    assert_eq!(t.reserve_piece(&all), Some(2));
    assert_eq!(t.reserve_piece(&all), Some(1));
}

#[test]
fn pieces_that_we_have_stay_and_are_not_handed_out() {
    let mut t = PieceTracker::from_info(&info_with_hashes(&[[0; 20]; 3])).unwrap();
    let all = full_bitfield(3);
    let first = t.reserve_piece(&all).unwrap();
    t.mark_have(first);
    t.release_piece(first);
    t.add_bitfield_availability(&all);
    t.remove_bitfield_availability(&all);
    assert!(t.has(first));
    assert_ne!(t.reserve_piece(&all), Some(first));
    assert_ne!(t.reserve_piece(&all), Some(first));
    assert_eq!(t.reserve_piece(&all), None);
}

#[test]
fn advertised_bits_stand_for_pieces_only() {
    let mut tracker = PieceTracker::from_info(&info_with_hashes(&[[0; 20]; 10])).unwrap();
    assert_eq!(tracker.have_bitfield().as_bytes(), &[0x00, 0x00][..]);
    tracker.mark_have(0);
    tracker.mark_have(9);
    tracker.mark_have(12); // out of range
    assert_eq!(tracker.have_bitfield().as_bytes(), &[0x80, 0x40][..]);
    assert_eq!(&tracker.have_bitfield().to_message_bytes()[..], &[0x80, 0x40][..]);
}
