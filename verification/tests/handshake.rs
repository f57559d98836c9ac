use torrentina::peer::handshake::{Handshake, HANDSHAKE_LEN, PSTR};
use torrentina::peer::CLIENT_PREFIX;
use torrentina::{Error, InfoHash, PeerId};

#[test]
fn round_trips_through_bytes() {
    let hs = Handshake::new(InfoHash([0xAB; 20]), PeerId(*b"-TN0001-ABCDEFGHIJKL"));
    let bytes = hs.to_bytes();
    assert_eq!(bytes.len(), 68);
    assert_eq!(bytes[0], 19);
    assert_eq!(&bytes[1..20], PSTR);

    let parsed = Handshake::from_bytes(&bytes).unwrap();
    assert_eq!(parsed, hs);
}

#[test]
fn rejects_wrong_length() {
    assert!(matches!(Handshake::from_bytes(&[0u8; 10]), Err(Error::PeerProtocol(_))));
}

#[test]
fn rejects_bad_protocol_string() {
    let mut bytes = Handshake::new(InfoHash([0; 20]), PeerId([0; 20])).to_bytes();
    bytes[1] = b'X'; // corrupt the pstr
    assert!(matches!(Handshake::from_bytes(&bytes), Err(Error::PeerProtocol(_))));
}

#[test]
fn rejects_bad_pstrlen() {
    let mut bytes = Handshake::new(InfoHash([0; 20]), PeerId([0; 20])).to_bytes();
    bytes[0] = 18; // wrong pstrlen
    assert!(matches!(Handshake::from_bytes(&bytes), Err(Error::PeerProtocol(_))));
}

#[test]
fn generated_peer_id_has_client_prefix_and_is_random() {
    let a = PeerId::generate();
    let b = PeerId::generate();
    assert_eq!(&a.0[..CLIENT_PREFIX.len()], CLIENT_PREFIX);
    assert_eq!(&b.0[..CLIENT_PREFIX.len()], CLIENT_PREFIX);
    // Overwhelmingly likely to differ in the random suffix.
    assert_ne!(a, b);
}

#[test]
fn client_prefix_and_protocol_string_are_the_well_known_ones() {
    assert_eq!(&CLIENT_PREFIX, b"-TN0001-");
    assert_eq!(&PSTR, b"BitTorrent protocol");
    assert_eq!(HANDSHAKE_LEN, 68);
}

#[test]
fn handshake_error_texts() {
    let text = |bytes: &[u8]| match Handshake::from_bytes(bytes) {
        Err(Error::PeerProtocol(text)) => text,
        other => panic!("{other:?}"),
    };
    assert_eq!(text(&[0u8; 10]), "handshake must be 68 bytes, got 10");
    let mut bytes = Handshake::new(InfoHash([0; 20]), PeerId([0; 20])).to_bytes();
    bytes[0] = 18;
    assert_eq!(text(&bytes), "unexpected pstrlen 18");
    bytes[0] = 19;
    bytes[19] = 0;
    assert_eq!(text(&bytes), "unexpected protocol string");
}

#[test]
fn only_the_handshake_for_our_torrent_is_accepted() {
    let theirs = Handshake::new(InfoHash([0x11; 20]), PeerId([7; 20]));
    let accepted = Handshake::accept(&theirs.to_bytes(), InfoHash([0x11; 20])).unwrap();
    assert_eq!(accepted, theirs);
    match Handshake::accept(&theirs.to_bytes(), InfoHash([0x22; 20])) {
        Err(Error::PeerProtocol(text)) => assert_eq!(
            text,
            format!(
                "peer info hash {} does not match ours {}",
                "11".repeat(20),
                "22".repeat(20)
            )
        ),
        other => panic!("{other:?}"),
    }
    assert!(Handshake::accept(&[0; 3], InfoHash([0x11; 20])).is_err());
}

#[test]
fn reserved_bits_survive() {
    let mut bytes = Handshake::new(InfoHash([1; 20]), PeerId([2; 20])).to_bytes();
    bytes[20..28].copy_from_slice(&[1, 2, 3, 4, 5, 6, 7, 8]);
    let parsed = Handshake::from_bytes(&bytes).unwrap();
    assert_eq!(parsed.reserved, [1, 2, 3, 4, 5, 6, 7, 8]);
    assert_eq!(parsed.to_bytes(), bytes);
}

#[test]
fn ids_are_shown_readably() {
    let mut id = *b"-TN0001-ab cdefghijk";
    id[19] = 0x1f;
    assert_eq!(PeerId(id).to_string(), "-TN0001-ab cdefghij\\x1f");
    assert_eq!(PeerId::with_suffix(*b"ABCDEFGHIJKL").to_string(), "-TN0001-ABCDEFGHIJKL");
    let mut hash = [0u8; 20];
    hash[0] = 0xab;
    hash[19] = 0x09;
    assert_eq!(InfoHash(hash).to_string(), format!("ab{}09", "00".repeat(18)));
}
