use torrentina::disk::{build_file_map, map_region, WriteOp};
use torrentina::{Error, FileEntry, Geometry, Info, MappedFile, Metainfo, Storage};

fn files(spec: &[(u64, u64)]) -> Vec<MappedFile> {
    spec.iter()
        .enumerate()
        .map(|(i, &(offset, length))| MappedFile { path: vec![format!("f{i}")], length, offset })
        .collect()
}

#[test]
fn maps_region_within_a_single_file() {
    let files = files(&[(0, 100)]);
    let ops = map_region(&files, 10, 20);
    assert_eq!(ops, vec![WriteOp { file_index: 0, file_offset: 10, src_start: 0, len: 20 }]);
}

#[test]
fn maps_region_straddling_two_files() {
    // file 0: [0, 40000), file 1: [40000, 70000)
    let files = files(&[(0, 40000), (40000, 30000)]);
    // A piece at global 32768, length 32768 -> [32768, 65536).
    let ops = map_region(&files, 32768, 32768);
    assert_eq!(
        ops,
        vec![
            // tail of file 0: [32768, 40000) -> 7232 bytes at file offset 32768
            WriteOp { file_index: 0, file_offset: 32768, src_start: 0, len: 7232 },
            // head of file 1: [40000, 65536) -> 25536 bytes at file offset 0
            WriteOp { file_index: 1, file_offset: 0, src_start: 7232, len: 25536 },
        ]
    );
}

#[test]
fn maps_region_at_exact_file_boundary() {
    let files = files(&[(0, 100), (100, 100)]);
    // Range [100, 150) lies entirely in file 1.
    let ops = map_region(&files, 100, 50);
    assert_eq!(ops, vec![WriteOp { file_index: 1, file_offset: 0, src_start: 0, len: 50 }]);
}

#[test]
fn map_region_skips_zero_length_and_nonoverlapping_files() {
    // file 1 is zero-length and must be skipped cleanly.
    let files = files(&[(0, 50), (50, 0), (50, 50)]);
    let ops = map_region(&files, 0, 100);
    assert_eq!(ops.len(), 2);
    assert_eq!(ops[0].file_index, 0);
    assert_eq!(ops[1].file_index, 2);
}

fn meta(name: &str, piece_length: u64, num_pieces: usize, length: Option<u64>, files: Option<Vec<FileEntry>>) -> Metainfo {
    Metainfo {
        announce: None,
        announce_list: None,
        comment: None,
        created_by: None,
        creation_date: None,
        encoding: None,
        raw_info_hash: None,
        info: Info {
            name: name.into(),
            piece_length,
            pieces: vec![0u8; num_pieces * 20],
            length,
            files,
            private: None,
        },
    }
}

fn file(length: u64, path: &[&str]) -> FileEntry {
    FileEntry { length, path: path.iter().map(|p| p.to_string()).collect(), md5sum: None }
}

/// Multi-file write: a piece straddles two files (one nested in a subdir), pieces are written out
/// of order, and we read everything back.
#[test]
fn multi_file_torrent_is_restored_from_pieces_in_any_order() {
    let piece_len = 32768usize;
    let (len_a, len_b) = (40000usize, 30000usize);
    let total = len_a + len_b; // 70000 -> 3 pieces (last is short)
    let num_pieces = total.div_ceil(piece_len);
    let data: Vec<u8> = (0..total).map(|i| (i % 251) as u8).collect();
    let meta = meta(
        "torrent",
        piece_len as u64,
        num_pieces,
        None,
        Some(vec![file(len_a as u64, &["a.bin"]), file(len_b as u64, &["sub", "b.bin"])]),
    );

    let storage = Storage::create(&meta).unwrap();
    assert_eq!(storage.files()[1].path, vec!["torrent", "sub", "b.bin"]);
    let mut disk: Vec<Vec<u8>> =
        storage.files().iter().map(|f| vec![0u8; f.length as usize]).collect();

    // Write pieces in reverse order to prove offsets are positioned, not sequential/append.
    let geometry = Geometry::from_info(&meta.info).unwrap();
    for index in (0..num_pieces as u32).rev() {
        let start = geometry.piece_offset(index) as usize;
        let piece = &data[start..start + geometry.piece_length(index) as usize];
        assert!(storage.can_plan(index, piece.len()));
        let ops = storage.plan_piece(index, piece.len());
        for op in &ops {
            let at = op.file_offset as usize;
            disk[op.file_index][at..at + op.len]
                .copy_from_slice(&piece[op.src_start..op.src_start + op.len]);
        }
        storage.confirm_piece(index, &ops, piece.len()).unwrap();
    }
    assert_eq!(disk[0], &data[..len_a], "file A contents");
    assert_eq!(disk[1], &data[len_a..], "file B contents");
}

#[test]
fn a_piece_that_does_not_fit_is_noticed() {
    let meta = meta("single.bin", 16384, 1, Some(5000), None);
    let storage = Storage::create(&meta).unwrap();
    assert_eq!(storage.files().len(), 1);
    assert_eq!(storage.files()[0].path, vec!["single.bin"]);
    let ops = storage.plan_piece(0, 6000);
    match storage.confirm_piece(0, &ops, 6000) {
        Err(Error::Storage(text)) => assert_eq!(text, "piece 0 mapped 5000 of 6000 bytes to files"),
        other => panic!("{other:?}"),
    }
    let ops = storage.plan_piece(1, 3);
    assert!(ops.is_empty());
    assert!(storage.confirm_piece(1, &ops, 3).is_err());
    assert!(!storage.can_plan(u32::MAX, usize::MAX));
}

#[test]
fn file_map_places_files_end_to_end() {
    let meta = meta(
        "t",
        16,
        1,
        None,
        Some(vec![file(5, &["a"]), file(0, &["b"]), file(7, &["c", "d"])]),
    );
    let map = build_file_map(&meta).unwrap();
    let placed: Vec<(u64, u64)> = map.iter().map(|f| (f.offset, f.length)).collect();
    assert_eq!(placed, vec![(0, 5), (5, 0), (5, 7)]);
    assert_eq!(map[2].path, vec!["t", "c", "d"]);
}

#[test]
fn file_map_refuses_what_it_cannot_place() {
    let huge = meta("t", 16, 1, None, Some(vec![file(u64::MAX, &["a"]), file(1, &["b"])]));
    match build_file_map(&huge) {
        Err(Error::Storage(text)) => assert_eq!(text, "total torrent size overflows u64"),
        other => panic!("{other:?}"),
    }
    let unsafe_name = meta("..", 16, 1, Some(16), None);
    assert!(matches!(build_file_map(&unsafe_name), Err(Error::MalformedTorrent(_))));
    let no_layout = meta("t", 16, 1, None, None);
    assert!(matches!(build_file_map(&no_layout), Err(Error::InvalidFileLayout)));
    assert!(matches!(Storage::create(&no_layout), Err(Error::InvalidFileLayout)));
}
