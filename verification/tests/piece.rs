use torrentina::download::{Geometry, PieceAssembler, BLOCK_SIZE};
use torrentina::{BlockInfo, Error, FileEntry, Info};

/// Build an `Info` for a torrent of `total` bytes with `piece_len` pieces. The `pieces` hash blob
/// is filler; geometry ignores its contents.
fn info(total: u64, piece_len: u64) -> Info {
    let num_pieces = total.div_ceil(piece_len) as usize;
    Info {
        name: "t".into(),
        piece_length: piece_len,
        pieces: vec![0u8; num_pieces * 20],
        length: Some(total),
        files: None,
        private: None,
    }
}

fn protocol_text<T: std::fmt::Debug>(result: Result<T, Error>) -> String {
    match result {
        Err(Error::PeerProtocol(text)) => text,
        other => panic!("{other:?}"),
    }
}

#[test]
fn geometry_handles_short_final_piece_and_block() {
    // 2 full 32 KiB pieces + a 5000-byte tail piece.
    let g = Geometry::from_info(&info(2 * 32768 + 5000, 32768)).unwrap();
    assert_eq!(g.num_pieces(), 3);
    assert_eq!(g.piece_length(0), 32768);
    assert_eq!(g.piece_length(2), 5000);

    // Full piece -> two 16 KiB blocks.
    assert_eq!(g.num_blocks(0), 2);
    assert_eq!(g.block_info(0, 1), BlockInfo { index: 0, begin: 16384, length: 16384 });

    // Tail piece -> a single 5000-byte block.
    assert_eq!(g.num_blocks(2), 1);
    assert_eq!(g.block_info(2, 0), BlockInfo { index: 2, begin: 0, length: 5000 });
}

#[test]
fn geometry_rejects_inconsistent_sizes() {
    // pieces blob says 4 pieces but total only spans ~1.x pieces.
    let mut bad = info(40000, 32768); // 2 pieces' worth
    bad.pieces = vec![0u8; 4 * 20]; // claim 4 pieces
    assert!(Geometry::from_info(&bad).is_err());
}

#[test]
fn geometry_names_what_is_wrong() {
    let mut bad = info(100, 16);
    bad.piece_length = 0x1_0000_0000;
    assert_eq!(protocol_text(Geometry::from_info(&bad)), "piece length exceeds u32");
    bad.piece_length = 0;
    assert_eq!(protocol_text(Geometry::from_info(&bad)), "piece length is zero");
    bad.piece_length = 16;
    bad.pieces = Vec::new();
    assert_eq!(protocol_text(Geometry::from_info(&bad)), "torrent has zero pieces");
    bad.pieces = vec![0u8; 20 * 20];
    assert_eq!(protocol_text(Geometry::from_info(&bad)), "piece count exceeds total length");
    bad.pieces = vec![0u8; 20];
    assert_eq!(
        protocol_text(Geometry::from_info(&bad)),
        "inconsistent total length, piece length, and piece count"
    );
    bad.length = None;
    assert!(matches!(Geometry::from_info(&bad), Err(Error::InvalidFileLayout)));
}

#[test]
fn pieces_and_blocks_tile_the_content() {
    let g = Geometry::from_info(&info(5 * 40000 + 17, 40000)).unwrap();
    assert_eq!(g.total_length(), 200017);
    let mut at = 0u64;
    for index in 0..g.num_pieces() {
        assert_eq!(g.piece_offset(index), at);
        let mut begin = 0u32;
        for block in 0..g.num_blocks(index) {
            let b = g.block_info(index, block);
            assert_eq!(b.begin, begin);
            assert!(b.length > 0 && b.length <= BLOCK_SIZE);
            begin += b.length;
        }
        assert_eq!(begin, g.piece_length(index));
        at += begin as u64;
    }
    assert_eq!(at, g.total_length());
}

#[test]
fn block_at_the_very_end_of_a_piece_is_empty() {
    let g = Geometry::from_info(&info(32768, 32768)).unwrap();
    assert_eq!(g.block_info(0, 2), BlockInfo { index: 0, begin: 32768, length: 0 });
}

#[test]
fn assembler_collects_blocks_then_completes() {
    let mut piece = PieceAssembler::new(0, 20000); // 16384 + 3616
    assert!(!piece.is_complete());

    piece.add_block(0, &[1u8; 16384]).unwrap();
    assert!(!piece.is_complete());
    piece.add_block(16384, &[2u8; 3616]).unwrap();
    assert!(piece.is_complete());

    let bytes = piece.into_bytes();
    assert_eq!(bytes.len(), 20000);
    assert_eq!(bytes[0], 1);
    assert_eq!(bytes[16384], 2);
}

#[test]
fn assembler_ignores_duplicate_block() {
    let mut piece = PieceAssembler::new(0, 16384);
    piece.add_block(0, &[1u8; 16384]).unwrap();
    assert!(piece.is_complete());
    // Duplicate delivery must not underflow `remaining`.
    piece.add_block(0, &[1u8; 16384]).unwrap();
    assert!(piece.is_complete());
}

#[test]
fn assembler_rejects_misaligned_and_oversized_blocks() {
    let mut piece = PieceAssembler::new(0, 16384);
    assert!(piece.add_block(100, &[0u8; 10]).is_err()); // not aligned
    assert!(piece.add_block(0, &[0u8; 20000]).is_err()); // overflows piece
}

#[test]
fn assembler_error_texts() {
    let mut piece = PieceAssembler::new(3, 16384);
    assert_eq!(piece.index(), 3);
    assert_eq!(
        protocol_text(piece.add_block(100, &[0u8; 10])),
        "block offset 100 is not block-aligned"
    );
    assert_eq!(
        protocol_text(piece.add_block(0, &[0u8; 20000])),
        "block [0, 0+20000) exceeds piece length 16384"
    );
    assert!(!piece.is_complete());
    assert!(piece.data().iter().all(|&b| b == 0));
}

#[test]
fn assembler_refuses_blocks_that_begin_at_the_end() {
    let mut piece = PieceAssembler::new(0, 16384);
    assert_eq!(
        protocol_text(piece.add_block(16384, &[])),
        "block [16384, 16384+0) exceeds piece length 16384"
    );
    assert_eq!(
        protocol_text(piece.add_block(32768, &[1])),
        "block [32768, 32768+1) exceeds piece length 16384"
    );
    assert!(!piece.is_complete());
    let mut empty = PieceAssembler::new(0, 0);
    assert!(matches!(empty.add_block(0, &[]), Err(Error::PeerProtocol(_))));
}

#[test]
fn redelivery_with_other_bytes_is_a_no_op() {
    let mut piece = PieceAssembler::new(0, 16384);
    piece.add_block(0, &[1u8; 16384]).unwrap();
    assert!(piece.is_complete());
    piece.add_block(0, &[2u8; 16384]).unwrap();
    assert!(piece.is_complete());
    assert_eq!(piece.data(), &[1u8; 16384][..]);

    let mut piece = PieceAssembler::new(0, 32768);
    piece.add_block(16384, &[1u8; 16384]).unwrap();
    piece.add_block(16384, &[2u8; 10]).unwrap();
    assert!(!piece.is_complete());
    // One that does not fit is turned down all the same.
    assert!(piece.add_block(16384, &[2u8; 16385]).is_err());
    piece.add_block(0, &[3u8; 16384]).unwrap();
    assert!(piece.is_complete());
    assert_eq!(&piece.data()[..16384], &[3u8; 16384][..]);
    assert_eq!(&piece.data()[16384..], &[1u8; 16384][..]);
}

#[test]
fn assembly_in_any_order_gives_the_content() {
    let content: Vec<u8> = (0..50000usize).map(|i| (i % 251) as u8).collect();
    let mut piece = PieceAssembler::new(0, 50000);
    for begin in [32768usize, 0, 49152, 0, 16384] {
        let end = (begin + 16384).min(50000);
        assert!(!piece.is_complete());
        piece.add_block(begin as u32, &content[begin..end]).unwrap();
    }
    assert!(piece.is_complete());
    assert_eq!(piece.data(), &content[..]);
}

#[test]
fn content_length_that_overflows_is_noticed() {
    let mut huge = info(16, 16);
    huge.length = None;
    let file = |length| FileEntry { length, path: vec!["a".to_string()], md5sum: None };
    huge.files = Some(vec![file(u64::MAX), file(1)]);
    assert!(!huge.length_fits());
    huge.files = Some(vec![file(u64::MAX), file(0)]);
    assert!(huge.length_fits());
    assert_eq!(huge.total_length().unwrap(), u64::MAX);
}

#[test]
fn redelivering_a_block_changes_nothing() {
    let mut piece = PieceAssembler::new(0, 40000);
    piece.add_block(16384, &[7u8; 16384]).unwrap();
    let before = piece.data().to_vec();
    piece.add_block(16384, &[7u8; 16384]).unwrap();
    assert_eq!(piece.data(), &before[..]);
    assert!(!piece.is_complete());
}
