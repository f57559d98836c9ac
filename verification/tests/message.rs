use bytes::{BufMut, Bytes, BytesMut};
use torrentina::peer::message::{ID_HAVE, MAX_MESSAGE_LEN};
use torrentina::peer::PeerCodec;
use torrentina::{Block, BlockInfo, Error, Message};

/// Encode a message, then decode it back, asserting we recover the input and that the buffer is
/// fully consumed.
fn round_trip(msg: Message) {
    let mut codec = PeerCodec::new();
    let mut buf = BytesMut::new();
    codec.encode(msg.clone(), &mut buf).unwrap();
    let decoded = codec.decode(&mut buf).unwrap().expect("a full message");
    assert_eq!(decoded, msg);
    assert!(buf.is_empty(), "decoder should consume the whole frame");
}

#[test]
fn round_trips_all_message_types() {
    round_trip(Message::KeepAlive);
    round_trip(Message::Choke);
    round_trip(Message::Unchoke);
    round_trip(Message::Interested);
    round_trip(Message::NotInterested);
    round_trip(Message::Have(42));
    round_trip(Message::Bitfield(Bytes::from_static(&[0b1010_1010, 0xff])));
    round_trip(Message::Request(BlockInfo { index: 1, begin: 16384, length: 16384 }));
    round_trip(Message::Piece(Block {
        index: 7,
        begin: 32768,
        data: Bytes::from_static(b"some block data"),
    }));
    round_trip(Message::Cancel(BlockInfo { index: 2, begin: 0, length: 16384 }));
    round_trip(Message::Port(6881));
}

#[test]
fn decode_waits_for_a_complete_frame() {
    let mut codec = PeerCodec::new();
    let mut buf = BytesMut::new();
    codec.encode(Message::Have(5), &mut buf).unwrap();

    // Feed the bytes one at a time; only the final byte completes the frame.
    let full = buf.split();
    let mut partial = BytesMut::new();
    for (i, byte) in full.iter().enumerate() {
        partial.put_u8(*byte);
        let result = codec.decode(&mut partial).unwrap();
        if i + 1 < full.len() {
            assert!(result.is_none(), "incomplete frame must yield None");
        } else {
            assert_eq!(result, Some(Message::Have(5)));
        }
    }
}

#[test]
fn decodes_two_back_to_back_messages() {
    let mut codec = PeerCodec::new();
    let mut buf = BytesMut::new();
    codec.encode(Message::Unchoke, &mut buf).unwrap();
    codec.encode(Message::Have(9), &mut buf).unwrap();

    assert_eq!(codec.decode(&mut buf).unwrap(), Some(Message::Unchoke));
    assert_eq!(codec.decode(&mut buf).unwrap(), Some(Message::Have(9)));
    assert_eq!(codec.decode(&mut buf).unwrap(), None);
}

#[test]
fn rejects_oversized_length_prefix() {
    let mut codec = PeerCodec::new();
    let mut buf = BytesMut::new();
    buf.put_u32((MAX_MESSAGE_LEN + 1) as u32);
    assert!(matches!(codec.decode(&mut buf), Err(Error::PeerProtocol(_))));
}

#[test]
fn rejects_wrong_payload_length() {
    // A "have" frame claiming 4 payload bytes but the id says have with a 3-byte payload:
    // declared len = 1 (id) + 3 = 4.
    let mut codec = PeerCodec::new();
    let mut buf = BytesMut::new();
    buf.put_u32(4);
    buf.put_u8(ID_HAVE);
    buf.put_slice(&[0, 0, 0]); // only 3 bytes instead of 4
    assert!(matches!(codec.decode(&mut buf), Err(Error::PeerProtocol(_))));
}

#[test]
fn rejects_unknown_message_id() {
    let mut codec = PeerCodec::new();
    let mut buf = BytesMut::new();
    buf.put_u32(1);
    buf.put_u8(99); // not a valid id
    assert!(matches!(codec.decode(&mut buf), Err(Error::PeerProtocol(_))));
}

fn encoded(msg: Message) -> Vec<u8> {
    let mut buf = BytesMut::new();
    PeerCodec::new().encode(msg, &mut buf).unwrap();
    buf.to_vec()
}

#[test]
fn frames_have_the_wire_layout() {
    assert_eq!(encoded(Message::KeepAlive), vec![0, 0, 0, 0]);
    assert_eq!(encoded(Message::Choke), vec![0, 0, 0, 1, 0]);
    assert_eq!(encoded(Message::Unchoke), vec![0, 0, 0, 1, 1]);
    assert_eq!(encoded(Message::Interested), vec![0, 0, 0, 1, 2]);
    assert_eq!(encoded(Message::NotInterested), vec![0, 0, 0, 1, 3]);
    assert_eq!(encoded(Message::Have(0x01020304)), vec![0, 0, 0, 5, 4, 1, 2, 3, 4]);
    assert_eq!(encoded(Message::Bitfield(Bytes::from_static(&[0xf0]))), vec![0, 0, 0, 2, 5, 0xf0]);
    assert_eq!(
        encoded(Message::Request(BlockInfo { index: 1, begin: 2, length: 0x4000 })),
        vec![0, 0, 0, 13, 6, 0, 0, 0, 1, 0, 0, 0, 2, 0, 0, 0x40, 0]
    );
    assert_eq!(
        encoded(Message::Piece(Block { index: 1, begin: 2, data: Bytes::from_static(b"xy") })),
        vec![0, 0, 0, 11, 7, 0, 0, 0, 1, 0, 0, 0, 2, b'x', b'y']
    );
    assert_eq!(
        encoded(Message::Cancel(BlockInfo { index: 1, begin: 2, length: 3 }))[4],
        8
    );
    assert_eq!(encoded(Message::Port(0x1ae1)), vec![0, 0, 0, 3, 9, 0x1a, 0xe1]);
}

fn refused(body: &[u8]) -> String {
    let mut buf = BytesMut::new();
    buf.put_u32(body.len() as u32);
    buf.put_slice(body);
    buf.put_slice(b"rest");
    let text = match PeerCodec::new().decode(&mut buf) {
        Err(Error::PeerProtocol(text)) => text,
        other => panic!("{other:?}"),
    };
    assert_eq!(&buf[..], b"rest", "the bad frame is removed");
    text
}

#[test]
fn refused_frames_say_why() {
    assert_eq!(refused(&[0, 1]), "Choke message must have no payload, got 1 bytes");
    assert_eq!(refused(&[3, 1, 1]), "NotInterested message must have no payload, got 2 bytes");
    assert_eq!(refused(&[4, 0, 0, 0]), "have message payload must be 4 bytes, got 3");
    assert_eq!(refused(&[6]), "request message payload must be 12 bytes, got 0");
    assert_eq!(refused(&[7, 0]), "piece message payload must be at least 8 bytes, got 1");
    assert_eq!(refused(&[8, 0]), "cancel message payload must be 12 bytes, got 1");
    assert_eq!(refused(&[9]), "port message payload must be 2 bytes, got 0");
    assert_eq!(refused(&[99]), "unknown message id 99");
}

#[test]
fn an_oversized_prefix_stays_in_the_buffer() {
    let mut buf = BytesMut::new();
    buf.put_u32(MAX_MESSAGE_LEN as u32 + 1);
    match PeerCodec::new().decode(&mut buf) {
        Err(Error::PeerProtocol(text)) => {
            assert_eq!(text, "declared message length 1048577 exceeds maximum 1048576");
        }
        other => panic!("{other:?}"),
    }
    assert_eq!(buf.len(), 4);
}

#[test]
fn the_largest_message_is_accepted() {
    let data = vec![5u8; MAX_MESSAGE_LEN - 9];
    round_trip(Message::Piece(Block { index: 0, begin: 0, data: Bytes::from(data) }));
}

#[test]
fn reading_and_writing_again_gives_the_same_bytes() {
    let frames: [&[u8]; 4] = [
        &[0, 0, 0, 0],
        &[0, 0, 0, 5, 4, 0, 0, 1, 2],
        &[0, 0, 0, 3, 5, 0xaa, 0x80],
        &[0, 0, 0, 10, 7, 0, 0, 0, 1, 0, 0, 0x40, 0, 0x77],
    ];
    for frame in frames {
        let mut buf = BytesMut::from(frame);
        let message = PeerCodec::new().decode(&mut buf).unwrap().unwrap();
        assert_eq!(encoded(message), frame);
    }
}

#[test]
fn ordinary_messages_can_be_encoded() {
    let codec = PeerCodec::new();
    let buf = BytesMut::new();
    assert!(codec.can_encode(&Message::KeepAlive, &buf));
    assert!(codec.can_encode(&Message::Port(1), &buf));
    let block = Block { index: 0, begin: 0, data: Bytes::from(vec![0u8; 16384]) };
    assert!(codec.can_encode(&Message::Piece(block), &buf));
}
