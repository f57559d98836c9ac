use bytes::Bytes;
use sha1::{Digest, Sha1};
use torrentina::download::session::{settle, Directive, Reaction};
use torrentina::download::{Bitfield, MAX_PIPELINED_REQUESTS};
use torrentina::{
    Block, BlockInfo, ControlState, Coordinator, Error, Info, InfoHash, Message, PeerId,
    PieceTracker, Session,
};

const ADDR: &str = "127.0.0.1:1";

/// Build deterministic content plus a matching single-file `Info`.
fn make_torrent(total: usize, piece_len: usize) -> (Vec<u8>, Info) {
    let data: Vec<u8> = (0..total).map(|i| (i % 251) as u8).collect();
    let mut pieces = Vec::new();
    for chunk in data.chunks(piece_len) {
        pieces.extend_from_slice(&Sha1::digest(chunk));
    }
    let info = Info {
        name: "test".into(),
        piece_length: piece_len as u64,
        pieces,
        length: Some(total as u64),
        files: None,
        private: None,
    };
    (data, info)
}

fn coordinator(info: &Info) -> Coordinator {
    Coordinator::new(info, InfoHash([1; 20]), PeerId([2; 20])).unwrap()
}

fn bitfield(n: usize, pieces: &[usize]) -> Message {
    let mut bf = Bitfield::new(n);
    for &i in pieces {
        bf.set(i);
    }
    Message::Bitfield(bf.to_message_bytes())
}

fn deliver(c: &mut Coordinator, s: &mut Session, message: Message) -> Result<Reaction, Error> {
    assert!(c.can_deliver(s, ADDR, &message));
    c.deliver(s, ADDR, message)
}

fn block(data: &[u8], piece_len: usize, request: BlockInfo) -> Message {
    let start = request.index as usize * piece_len + request.begin as usize;
    Message::Piece(Block {
        index: request.index,
        begin: request.begin,
        data: Bytes::copy_from_slice(&data[start..start + request.length as usize]),
    })
}

#[test]
fn a_session_downloads_and_verifies_a_whole_torrent() {
    // 2 full 32 KiB pieces (2 blocks each) + a short 5000-byte tail piece.
    let piece_len = 32768;
    let total = 2 * piece_len + 5000;
    let (data, info) = make_torrent(total, piece_len);
    let mut c = coordinator(&info);
    let mut s = c.open_session(ADDR);
    deliver(&mut c, &mut s, bitfield(3, &[0, 1, 2])).unwrap();
    deliver(&mut c, &mut s, Message::Unchoke).unwrap();

    let mut assembled = vec![0u8; total];
    let mut got = 0;
    let mut complete = false;
    while !complete {
        assert_eq!(c.direct(&mut s), Directive::Proceed);
        assert!(!c.claim(&mut s));
        for request in s.refill() {
            let reaction = deliver(&mut c, &mut s, block(&data, piece_len, request)).unwrap();
            complete = reaction.complete;
            if let Some(piece) = reaction.piece {
                let start = piece.index as usize * piece_len;
                assembled[start..start + piece.data.len()].copy_from_slice(&piece.data);
                got += 1;
            }
        }
    }
    assert_eq!(got, 3, "every piece should be delivered once");
    assert_eq!(assembled, data, "reconstructed content must match original");
    assert!(c.tracker().is_complete());
    assert!(c.claim(&mut s), "an idle session learns that the torrent is complete");

    let snapshot = c.snapshot();
    assert_eq!(snapshot.name, "test");
    assert_eq!((snapshot.total_pieces, snapshot.pieces_done), (3, 3));
    assert_eq!((snapshot.total_bytes, snapshot.bytes_done), (total as u64, total as u64));
    assert_eq!(snapshot.wire_bytes, total as u64);
    assert!(snapshot.complete && !snapshot.paused);
    assert_eq!(snapshot.connected_peers, 1);
    assert_eq!(snapshot.peers[0].addr, ADDR);
    assert_eq!(snapshot.peers[0].have_pieces, 3);
    c.close_session(&mut s, ADDR);
    assert_eq!(c.stats().connected_count(), 0);
}

#[test]
fn requests_are_pipelined() {
    let (data, info) = make_torrent(16384 * 8, 16384 * 8);
    let mut c = coordinator(&info);
    let mut s = c.open_session(ADDR);
    deliver(&mut c, &mut s, bitfield(1, &[0])).unwrap();
    assert!(s.refill().is_empty());
    deliver(&mut c, &mut s, Message::Unchoke).unwrap();
    c.claim(&mut s);
    let first = s.refill();
    assert_eq!(first.len(), MAX_PIPELINED_REQUESTS as usize);
    assert_eq!(first[4], BlockInfo { index: 0, begin: 4 * 16384, length: 16384 });
    assert!(s.refill().is_empty());
    assert!(s.is_waiting());
    deliver(&mut c, &mut s, block(&data, 16384 * 8, first[0])).unwrap();
    let next = s.refill();
    assert_eq!(next, vec![BlockInfo { index: 0, begin: 5 * 16384, length: 16384 }]);
}

#[test]
fn endgame_fetches_a_piece_that_another_peer_holds() {
    let (data, info) = make_torrent(16384 * 2, 16384);
    let mut c = coordinator(&info);
    // A peer that has only the last piece claims it, then goes silent.
    let mut silent = c.open_session("silent");
    deliver(&mut c, &mut silent, bitfield(2, &[1])).unwrap();
    deliver(&mut c, &mut silent, Message::Unchoke).unwrap();
    assert!(!c.claim(&mut silent));
    assert_eq!(silent.current_piece(), Some(1));
    silent.refill();

    let mut s = c.open_session(ADDR);
    deliver(&mut c, &mut s, bitfield(2, &[0, 1])).unwrap();
    deliver(&mut c, &mut s, Message::Unchoke).unwrap();
    c.claim(&mut s);
    assert_eq!(s.current_piece(), Some(0));
    let request = s.refill()[0];
    deliver(&mut c, &mut s, block(&data, 16384, request)).unwrap();
    // Nothing is left to claim exclusively.
    assert!(!c.claim(&mut s));
    assert_eq!(s.current_piece(), Some(1));
    let request = s.refill()[0];
    let reaction = deliver(&mut c, &mut s, block(&data, 16384, request)).unwrap();
    assert!(reaction.complete);

    // The slow answer is dropped, and the silent session learns of the completion.
    let late = block(&data, 16384, BlockInfo { index: 1, begin: 0, length: 16384 });
    let reaction = c.deliver(&mut silent, "silent", late).unwrap();
    assert_eq!(reaction, Reaction { complete: true, piece: None });
}

#[test]
fn a_timeout_frees_the_piece() {
    let (_, info) = make_torrent(16384, 16384);
    let mut c = coordinator(&info);
    let mut s = c.open_session(ADDR);
    deliver(&mut c, &mut s, bitfield(1, &[0])).unwrap();
    deliver(&mut c, &mut s, Message::Unchoke).unwrap();
    c.claim(&mut s);
    s.refill();
    assert!(s.is_waiting());
    c.time_out(&mut s);
    assert!(!s.is_waiting());
    assert_eq!(s.current_piece(), None);
    let mut other = c.open_session("other");
    deliver(&mut c, &mut other, bitfield(1, &[0])).unwrap();
    deliver(&mut c, &mut other, Message::Unchoke).unwrap();
    c.claim(&mut other);
    assert_eq!(other.current_piece(), Some(0));
}

#[test]
fn choke_pause_cancel_and_close_free_the_piece() {
    let (_, info) = make_torrent(16384, 16384);
    for way in 0..4 {
        let mut c = coordinator(&info);
        let mut s = c.open_session(ADDR);
        deliver(&mut c, &mut s, bitfield(1, &[0])).unwrap();
        deliver(&mut c, &mut s, Message::Unchoke).unwrap();
        c.claim(&mut s);
        assert_eq!(s.current_piece(), Some(0));
        match way {
            0 => {
                deliver(&mut c, &mut s, Message::Choke).unwrap();
                assert!(c.snapshot().peers[0].choked);
            }
            1 => {
                c.pause();
                assert!(c.snapshot().paused);
                assert_eq!(c.direct(&mut s), Directive::Wait);
                c.resume();
            }
            2 => {
                c.cancel();
                assert_eq!(c.control_state(), ControlState::Cancelled);
                assert_eq!(c.direct(&mut s), Directive::Stop);
                assert!(!c.tracker().is_complete());
            }
            _ => c.close_session(&mut s, ADDR),
        }
        assert_eq!(s.current_piece(), None);
        let mut other = c.open_session("other");
        c.deliver(&mut other, "other", bitfield(1, &[0])).unwrap();
        c.deliver(&mut other, "other", Message::Unchoke).unwrap();
        c.claim(&mut other);
        assert_eq!(other.current_piece(), Some(0), "way {way}");
    }
}

#[test]
fn a_bad_piece_is_retried() {
    let (data, info) = make_torrent(20000, 20000);
    let mut c = coordinator(&info);
    let mut s = c.open_session(ADDR);
    deliver(&mut c, &mut s, Message::Have(0)).unwrap();
    deliver(&mut c, &mut s, Message::Unchoke).unwrap();
    c.claim(&mut s);
    let wrong = vec![9u8; 20000];
    for request in s.refill() {
        let reaction = deliver(&mut c, &mut s, block(&wrong, 20000, request)).unwrap();
        assert_eq!(reaction, Reaction { complete: false, piece: None });
    }
    assert_eq!(s.current_piece(), None);
    assert!(!c.tracker().has(0));
    assert!(!c.claim(&mut s));
    let mut done = false;
    for request in s.refill() {
        done = deliver(&mut c, &mut s, block(&data, 20000, request)).unwrap().complete;
    }
    assert!(done);
}

#[test]
fn stray_and_broken_messages() {
    let (data, info) = make_torrent(16384 * 2, 16384);
    let mut c = coordinator(&info);
    let mut s = c.open_session(ADDR);
    // A block that nobody asked for is counted and ignored.
    let stray = block(&data, 16384, BlockInfo { index: 0, begin: 0, length: 100 });
    let reaction = deliver(&mut c, &mut s, stray).unwrap();
    assert_eq!(reaction, Reaction { complete: false, piece: None });
    assert_eq!(c.stats().total_downloaded(), 100);
    for message in [Message::KeepAlive, Message::Interested, Message::Port(1)] {
        deliver(&mut c, &mut s, message).unwrap();
    }
    let bad = Message::Bitfield(Bytes::from_static(&[0, 0]));
    assert!(matches!(deliver(&mut c, &mut s, bad), Err(Error::PeerProtocol(_))));
    deliver(&mut c, &mut s, bitfield(2, &[0, 1])).unwrap();
    deliver(&mut c, &mut s, Message::Unchoke).unwrap();
    c.claim(&mut s);
    let misaligned = block(&data, 16384, BlockInfo { index: 0, begin: 5, length: 5 });
    assert!(matches!(deliver(&mut c, &mut s, misaligned), Err(Error::PeerProtocol(_))));
    let beyond = Message::Piece(Block { index: 0, begin: 16384, data: Bytes::new() });
    assert!(matches!(deliver(&mut c, &mut s, beyond), Err(Error::PeerProtocol(_))));
}

#[test]
fn a_repeated_block_cannot_spoil_a_piece() {
    let (data, info) = make_torrent(20000, 20000);
    let mut c = coordinator(&info);
    let mut s = c.open_session(ADDR);
    deliver(&mut c, &mut s, Message::Have(0)).unwrap();
    deliver(&mut c, &mut s, Message::Unchoke).unwrap();
    c.claim(&mut s);
    let requests = s.refill();
    let wrong = vec![9u8; 20000];
    deliver(&mut c, &mut s, block(&data, 20000, requests[0])).unwrap();
    let reaction = deliver(&mut c, &mut s, block(&wrong, 20000, requests[0])).unwrap();
    assert_eq!(reaction, Reaction { complete: false, piece: None });
    let reaction = deliver(&mut c, &mut s, block(&data, 20000, requests[1])).unwrap();
    assert!(reaction.complete);
    assert_eq!(reaction.piece.unwrap().data, data);
}

#[test]
fn coordinator_refuses_broken_torrents() {
    let (_, mut info) = make_torrent(16384 * 2, 16384);
    info.pieces.push(0);
    let result = Coordinator::new(&info, InfoHash([1; 20]), PeerId([2; 20]));
    assert!(matches!(result, Err(Error::InvalidPiecesLength(41))));
    info.pieces.clear();
    let result = Coordinator::new(&info, InfoHash([1; 20]), PeerId([2; 20]));
    assert!(matches!(result, Err(Error::PeerProtocol(_))));
}

#[test]
fn a_whole_piece_is_settled_by_its_digest() {
    let (data, info) = make_torrent(10, 10);
    let mut tracker = PieceTracker::from_info(&info).unwrap();
    let digest: [u8; 20] = Sha1::digest(&data).into();
    let bytes = Bytes::from(data);
    let reaction = settle(&mut tracker, 0, bytes.clone(), &[0; 20]);
    assert_eq!(reaction, Reaction { complete: false, piece: None });
    let reaction = settle(&mut tracker, 0, bytes.clone(), &digest);
    assert!(reaction.complete);
    assert_eq!(reaction.piece.unwrap().data, bytes);
    let reaction = settle(&mut tracker, 0, bytes, &digest);
    assert_eq!(reaction, Reaction { complete: true, piece: None });
}

#[test]
fn wire_bytes_cover_what_is_kept() {
    let (data, info) = make_torrent(16384 * 4, 32768);
    let mut c = coordinator(&info);
    let mut s = c.open_session(ADDR);
    deliver(&mut c, &mut s, bitfield(2, &[0, 1])).unwrap();
    deliver(&mut c, &mut s, Message::Unchoke).unwrap();
    c.claim(&mut s);
    let requests = s.refill();
    // The first block comes twice.
    for request in [requests[0], requests[0], requests[1]] {
        deliver(&mut c, &mut s, block(&data, 32768, request)).unwrap();
        let snapshot = c.snapshot();
        assert!(snapshot.wire_bytes >= snapshot.bytes_done);
    }
    let snapshot = c.snapshot();
    assert_eq!(snapshot.bytes_done, 32768);
    assert_eq!(snapshot.wire_bytes, 3 * 16384);
}

#[test]
fn short_blocks_are_turned_down() {
    // Content of zeros: its digest does not tell a missing block from one that came.
    let data = vec![0u8; 16384];
    let info = Info {
        name: "zeros".into(),
        piece_length: 16384,
        pieces: Sha1::digest(&data).to_vec(),
        length: Some(16384),
        files: None,
        private: None,
    };
    let mut c = coordinator(&info);
    let mut s = c.open_session(ADDR);
    deliver(&mut c, &mut s, bitfield(1, &[0])).unwrap();
    deliver(&mut c, &mut s, Message::Unchoke).unwrap();
    c.claim(&mut s);
    let empty = Message::Piece(Block { index: 0, begin: 0, data: Bytes::new() });
    assert!(matches!(
        deliver(&mut c, &mut s, empty),
        Err(Error::PeerProtocol(text)) if text == "block [0, 0+0) is shorter than requested"
    ));
    assert_eq!(c.snapshot().bytes_done, 0);
    let request = BlockInfo { index: 0, begin: 0, length: 16384 };
    assert!(deliver(&mut c, &mut s, block(&data, 16384, request)).unwrap().complete);
    assert_eq!(c.snapshot().wire_bytes, 16384);
    assert_eq!(c.snapshot().bytes_done, 16384);
}
