use torrentina::download::Bitfield;
use torrentina::Error;

#[test]
fn sizes_byte_buffer_by_ceil() {
    assert_eq!(Bitfield::new(0).as_bytes().len(), 0);
    assert_eq!(Bitfield::new(1).as_bytes().len(), 1);
    assert_eq!(Bitfield::new(8).as_bytes().len(), 1);
    assert_eq!(Bitfield::new(9).as_bytes().len(), 2);
}

#[test]
fn set_and_has_are_msb_first() {
    let mut bf = Bitfield::new(10);
    assert!(!bf.has(0));
    bf.set(0); // most-significant bit of byte 0
    bf.set(7); // least-significant bit of byte 0
    bf.set(8); // most-significant bit of byte 1
    assert_eq!(bf.as_bytes(), &[0b1000_0001, 0b1000_0000]);
    assert!(bf.has(0) && bf.has(7) && bf.has(8));
    assert!(!bf.has(1) && !bf.has(9));
    assert_eq!(bf.count(), 3);
}

#[test]
fn out_of_range_access_is_safe() {
    let mut bf = Bitfield::new(3);
    bf.set(99); // ignored
    assert!(!bf.has(99));
    assert!(!bf.has(3));
}

#[test]
fn completeness_tracks_all_pieces() {
    let mut bf = Bitfield::new(3);
    assert!(!bf.is_complete());
    bf.set(0);
    bf.set(1);
    bf.set(2);
    assert!(bf.is_complete());
}

#[test]
fn from_bytes_validates_length() {
    assert!(Bitfield::from_bytes(vec![0u8; 2], 9).is_ok());
    assert!(matches!(Bitfield::from_bytes(vec![0u8; 1], 9), Err(Error::PeerProtocol(_))));
}

#[test]
fn bitfield_length_error_text() {
    match Bitfield::from_bytes(vec![0u8; 1], 9) {
        Err(Error::PeerProtocol(text)) => {
            assert_eq!(text, "bitfield is 1 bytes but 9 pieces need 2");
        }
        other => panic!("{other:?}"),
    }
}

#[test]
fn spare_bits_are_kept_and_not_counted() {
    let bf = Bitfield::from_bytes(vec![0xff, 0xff], 9).unwrap();
    assert_eq!(bf.num_pieces(), 9);
    assert_eq!(bf.count(), 9);
    assert!(bf.is_complete());
    assert!(!bf.has(9));
    assert_eq!(bf.as_bytes(), &[0xff, 0xff]);
    assert_eq!(&bf.to_message_bytes()[..], &[0xff, 0xff]);
    assert_eq!(bf.clone(), bf);
}

#[test]
fn setting_twice_counts_once() {
    let mut bf = Bitfield::new(12);
    bf.set(11);
    assert_eq!(bf.count(), 1);
    bf.set(11);
    assert_eq!(bf.count(), 1);
    assert_eq!(bf.as_bytes(), &[0x00, 0x10]);
}
