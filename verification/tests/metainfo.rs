use std::collections::HashMap;
use std::path::PathBuf;

use serde_bencode::value::Value;
use sha1::{Digest, Sha1};
use torrentina::bencode::Bencode;
use torrentina::error::BencodeError;
use torrentina::metainfo::SHA1_LEN;
use torrentina::span::skip_value;
use torrentina::{Error, FileEntry, FileLayout, Info, InfoHash, Metainfo};

/// The bencoded `info` dictionary used in the tests below, hand-written with keys already in
/// canonical (sorted) order: length < name < piece length < pieces
const INFO_BYTES: &[u8] =
    b"d6:lengthi12e4:name4:test12:piece lengthi32768e6:pieces20:AAAAAAAAAAAAAAAAAAAAe";

/// A torrent wrapping the given info dictionary. Top-level keys are sorted: announce < info.
fn torrent(info: &[u8]) -> Vec<u8> {
    let mut buf = Vec::new();
    buf.extend_from_slice(b"d8:announce15:http://tracker/4:info");
    buf.extend_from_slice(info);
    buf.extend_from_slice(b"e");
    buf
}

fn single_file_torrent() -> Vec<u8> {
    torrent(INFO_BYTES)
}

fn sha1_of(bytes: &[u8]) -> InfoHash {
    let mut out = [0u8; SHA1_LEN];
    out.copy_from_slice(&Sha1::digest(bytes));
    InfoHash(out)
}

fn named(name: &str) -> Metainfo {
    Metainfo {
        announce: None,
        announce_list: None,
        info: Info {
            name: name.into(),
            piece_length: 16,
            pieces: vec![0u8; 20],
            length: Some(16),
            files: None,
            private: None,
        },
        comment: None,
        created_by: None,
        creation_date: None,
        encoding: None,
        raw_info_hash: None,
    }
}

fn joined(paths: Vec<(Vec<String>, u64)>) -> Vec<(PathBuf, u64)> {
    paths.into_iter().map(|(names, length)| (names.iter().collect(), length)).collect()
}

#[test]
fn parses_single_file_torrent() {
    let bytes = single_file_torrent();
    let meta = Metainfo::from_bytes(&bytes).expect("should parse");

    assert_eq!(meta.announce.as_deref(), Some("http://tracker/"));
    assert_eq!(meta.info.name, "test");
    assert_eq!(meta.info.piece_length, 32768);
    assert_eq!(meta.info.length, Some(12));
    assert_eq!(meta.info.files, None);
    assert_eq!(meta.info.num_pieces(), 1);
    assert_eq!(meta.info.total_length().unwrap(), 12);
    assert_eq!(meta.info.layout().unwrap(), FileLayout::Single { length: 12 });
}

#[test]
fn info_hash_matches_independent_sha1_of_info_dict() {
    // Independently hash the known raw info-dict bytes...
    let expected = sha1_of(INFO_BYTES);

    // ...and confirm our parse + re-serialize path reproduces it exactly.
    let meta = Metainfo::from_bytes(&single_file_torrent()).unwrap();
    let actual = meta.info_hash().unwrap();

    assert_eq!(actual, expected, "info hash must match raw info-dict SHA-1");
}

#[test]
fn info_hash_uses_raw_bytes_and_preserves_unmodeled_keys() {
    // An info dict carrying a top-level `md5sum` key (sorted before `name`) that our `Info`
    // struct does NOT model. A re-serialization would drop it and yield the wrong hash; hashing
    // the raw bytes must not.
    //   length < md5sum < name < piece length < pieces
    let info: &[u8] = b"d6:lengthi12e6:md5sum4:beef4:name4:test12:piece lengthi32768e6:pieces20:AAAAAAAAAAAAAAAAAAAAe";
    let expected = sha1_of(info);

    let meta = Metainfo::from_bytes(&torrent(info)).unwrap();
    // The authoritative hash matches the raw info bytes...
    assert_eq!(meta.info_hash().unwrap(), expected);
    // ...and is demonstrably different from the lossy re-serialization.
    assert_ne!(meta.info.info_hash().unwrap(), expected);
}

#[test]
fn piece_hashes_iterates_20_byte_chunks() {
    let meta = Metainfo::from_bytes(&single_file_torrent()).unwrap();
    let hashes: Vec<_> = meta.info.piece_hashes().unwrap();
    assert_eq!(hashes.len(), 1);
    assert_eq!(&hashes[0], b"AAAAAAAAAAAAAAAAAAAA");
}

#[test]
fn rejects_pieces_not_multiple_of_20() {
    let info = Info {
        name: "x".into(),
        piece_length: 16,
        pieces: vec![0u8; 25], // not a multiple of 20
        length: Some(16),
        files: None,
        private: None,
    };
    assert!(matches!(info.piece_hashes().err(), Some(Error::InvalidPiecesLength(25))));
}

#[test]
fn parses_multi_file_torrent_and_resolves_paths() {
    // info dict with a `files` list instead of `length`.
    // Keys sorted: files < name < piece length < pieces.
    let info = b"d5:filesld6:lengthi10e4:pathl3:dir1:aeed6:lengthi20e4:pathl1:beee\
4:name3:dir12:piece lengthi16e6:pieces20:BBBBBBBBBBBBBBBBBBBBe";

    let meta = Metainfo::from_bytes(&torrent(info)).expect("should parse multi-file");
    assert_eq!(meta.info.length, None);
    assert_eq!(meta.info.total_length().unwrap(), 30);

    let files = meta.info.files.as_ref().unwrap();
    assert_eq!(files.len(), 2);
    assert_eq!(files[0].path, vec!["dir".to_string(), "a".to_string()]);

    let paths = joined(meta.file_paths("/downloads").unwrap());
    assert_eq!(
        paths,
        vec![
            (PathBuf::from("/downloads/dir/dir/a"), 10),
            (PathBuf::from("/downloads/dir/b"), 20),
        ]
    );
}

#[test]
fn rejects_path_traversal_in_file_paths() {
    // A multi-file torrent whose path tries to climb out of the download dir via `..` must be
    // rejected, not resolved to `/etc/...`.
    let info = b"d5:filesld6:lengthi10e4:pathl2:..6:passwdeee\
4:name3:dir12:piece lengthi16e6:pieces20:CCCCCCCCCCCCCCCCCCCCe";

    let meta = Metainfo::from_bytes(&torrent(info)).expect("parses; rejection is at resolve time");
    assert!(matches!(meta.file_paths("/downloads"), Err(Error::MalformedTorrent(_))));
}

#[test]
fn rejects_path_traversal_in_torrent_name() {
    // A single-file torrent whose `name` is `..` would escape the base dir.
    let meta = named("..");
    assert!(matches!(meta.file_paths("/downloads"), Err(Error::MalformedTorrent(_))));
}

#[test]
fn collects_all_trackers_deduplicated() {
    let mut meta = named("x");
    meta.announce = Some("http://primary/".into());
    meta.announce_list = Some(vec![
        vec!["http://primary/".into(), "http://t1/".into()],
        vec!["http://t2/".into()],
    ]);
    assert_eq!(meta.all_trackers(), vec!["http://primary/", "http://t1/", "http://t2/"]);
}

#[test]
fn unsafe_names_are_quoted_in_the_error() {
    for name in ["", ".", "..", "a/b", "a\\b", "a\0b"] {
        match named(name).file_paths("/d") {
            Err(Error::MalformedTorrent(text)) => assert_eq!(
                text,
                format!("unsafe path component {name:?} in torrent (possible path traversal)")
            ),
            other => panic!("{other:?}"),
        }
    }
    for name in ["a", "...", "a b", "..a", "\u{e9}"] {
        assert_eq!(
            joined(named(name).file_paths("/d").unwrap()),
            vec![(PathBuf::from("/d").join(name), 16)]
        );
    }
}

#[test]
fn layout_needs_exactly_one_form() {
    let mut meta = named("x");
    meta.info.length = None;
    assert!(matches!(meta.info.layout(), Err(Error::InvalidFileLayout)));
    assert!(matches!(meta.info.total_length(), Err(Error::InvalidFileLayout)));
    assert!(matches!(meta.file_paths("/d"), Err(Error::InvalidFileLayout)));
    meta.info.length = Some(1);
    meta.info.files = Some(Vec::new());
    assert!(matches!(meta.info.layout(), Err(Error::InvalidFileLayout)));
    meta.info.length = None;
    assert_eq!(meta.info.layout().unwrap(), FileLayout::Multi { files: Vec::new() });
    assert_eq!(meta.info.total_length().unwrap(), 0);
}

#[test]
fn reserializing_writes_the_sorted_dictionary() {
    let meta = Metainfo::from_bytes(&single_file_torrent()).unwrap();
    assert_eq!(meta.info.to_bencode(), INFO_BYTES);
    assert_eq!(meta.info.info_hash().unwrap(), sha1_of(INFO_BYTES));

    let info = Info {
        name: "n\u{e9}".into(),
        piece_length: u64::MAX,
        pieces: b"01234567890123456789".to_vec(),
        length: None,
        files: Some(vec![
            FileEntry {
                length: 3,
                path: vec!["d".into(), "f".into()],
                md5sum: Some("beef".into()),
            },
            FileEntry { length: 0, path: Vec::new(), md5sum: None },
        ]),
        private: Some(1),
    };
    let expected: &[u8] = b"d5:filesld6:lengthi3e6:md5sum4:beef4:pathl1:d1:feed6:lengthi0e4:pathlee\
e4:name3:n\xc3\xa912:piece lengthi18446744073709551615e6:pieces20:012345678901234567897:privatei1ee";
    assert_eq!(info.to_bencode(), expected);
    let mut meta = named("x");
    meta.info = info;
    assert_eq!(meta.info_hash().unwrap(), sha1_of(expected));
}

#[test]
fn all_modeled_keys_are_read() {
    let bytes: &[u8] = b"d13:announce-listll1:a1:bel1:cee7:comment2:hi10:created by2:me\
13:creation datei-5e8:encoding5:UTF-84:infod6:lengthi7e4:name1:n12:piece lengthi4e6:pieces0:\
7:privatei1ee3:zzzi0ee";
    let meta = Metainfo::from_bytes(bytes).unwrap();
    assert_eq!(meta.announce, None);
    assert_eq!(
        meta.announce_list,
        Some(vec![vec!["a".to_string(), "b".to_string()], vec!["c".to_string()]])
    );
    assert_eq!(meta.comment.as_deref(), Some("hi"));
    assert_eq!(meta.created_by.as_deref(), Some("me"));
    assert_eq!(meta.creation_date, Some(-5));
    assert_eq!(meta.encoding.as_deref(), Some("UTF-8"));
    assert_eq!(meta.info.private, Some(1));
    assert_eq!(meta.all_trackers(), vec!["a", "b", "c"]);
}

fn decode_error(bytes: &[u8]) -> BencodeError {
    match Metainfo::from_bytes(bytes) {
        Err(Error::BencodeDecode(error)) => error,
        other => panic!("{other:?}"),
    }
}

#[test]
fn undecodable_torrents_are_refused() {
    assert!(matches!(decode_error(b"hello"), BencodeError::Syntax(_)));
    assert!(matches!(decode_error(b""), BencodeError::Syntax(_)));
    assert!(matches!(decode_error(b"i5e"), BencodeError::NotADictionary));
    assert!(matches!(decode_error(b"d1:\xffi1ee"), BencodeError::NotADictionary));
    assert!(matches!(decode_error(b"de"), BencodeError::MissingField(key) if key == "info"));
    assert!(matches!(decode_error(b"d4:infodee"), BencodeError::MissingField(key) if key == "name"));
    assert!(matches!(
        decode_error(&torrent(b"d4:name1:n12:piece lengthi-1e6:pieces0:e")),
        BencodeError::InvalidField(key) if key == "piece length"
    ));
    assert!(matches!(
        decode_error(&torrent(b"d4:name1:\xff12:piece lengthi1e6:pieces0:e")),
        BencodeError::InvalidField(key) if key == "name"
    ));
    assert!(matches!(
        decode_error(&torrent(b"d5:filesld6:lengthi1eee4:name1:n12:piece lengthi1e6:pieces0:e")),
        BencodeError::InvalidField(key) if key == "files"
    ));
    assert!(matches!(
        decode_error(&torrent(b"d4:name1:n12:piece lengthi1e6:pieces0:7:privatei256ee")),
        BencodeError::InvalidField(key) if key == "private"
    ));
}

#[test]
fn repeated_keys_are_refused() {
    let repeated = |bytes: &[u8], wanted: &str| {
        assert!(
            matches!(decode_error(bytes), BencodeError::DuplicateField(key) if key == wanted),
            "{wanted}"
        );
    };
    let info = "d4:name1:n12:piece lengthi1e6:pieces0:e";
    repeated(format!("d8:announce1:a8:announce1:b4:info{info}e").as_bytes(), "announce");
    repeated(&torrent(b"d4:name1:n4:name1:m12:piece lengthi1e6:pieces0:e"), "name");
    repeated(
        &torrent(
            b"d5:filesld6:lengthi1e4:pathleed6:lengthi1e4:pathle4:pathleee4:name1:n12:piece lengthi1e6:pieces0:e",
        ),
        "path",
    );
    // Unknown keys may repeat.
    assert!(Metainfo::from_bytes(format!("d1:ai1e1:ai2e4:info{info}e").as_bytes()).is_ok());
}

#[test]
fn pieces_may_be_a_list_of_bytes() {
    let meta =
        Metainfo::from_bytes(&torrent(b"d4:name1:n12:piece lengthi1e6:piecesli1ei255eee")).unwrap();
    assert_eq!(meta.info.pieces, vec![1, 255]);
}

#[test]
fn the_raw_walk_says_what_is_wrong() {
    let text = |bytes: &[u8]| match torrentina::span::extract_raw_info(bytes) {
        Err(Error::MalformedTorrent(text)) => text,
        other => panic!("{other:?}"),
    };
    assert_eq!(text(b""), "metainfo is not a bencode dictionary");
    assert_eq!(text(b"le"), "metainfo is not a bencode dictionary");
    assert_eq!(text(b"d"), "unterminated top-level dictionary");
    assert_eq!(text(b"de"), "metainfo has no `info` dictionary");
    assert_eq!(text(b"d4info"), "byte string missing ':' delimiter");
    assert_eq!(text(b"dx:"), "invalid byte-string length");
    assert_eq!(text(b"d9:info"), "byte string runs past end of buffer");
    assert_eq!(text(b"d4:info"), "unexpected end of buffer");
    assert_eq!(text(b"d4:infoi5"), "unterminated integer");
    assert_eq!(text(b"d4:infoli5e"), "unterminated container");
    assert_eq!(text(b"d4:infox"), "unexpected bencode byte 0x78 at offset 7");
    assert_eq!(
        torrentina::span::extract_raw_info(b"d+1:ai1e4:infoli1eee tail").unwrap(),
        b"li1ee"
    );
}

#[test]
fn a_parsed_value_gives_the_torrent_too() {
    let text = |s: &str| Bencode::Str(s.as_bytes().to_vec());
    let info = Bencode::Dict(vec![
        (b"name".to_vec(), text("n")),
        (b"piece length".to_vec(), Bencode::Int(4)),
        (b"pieces".to_vec(), text("")),
    ]);
    let value = Bencode::Dict(vec![(b"info".to_vec(), info)]);
    let bytes = b"d4:infod4:name1:n12:piece lengthi4e6:pieces0:ee";
    let meta = Metainfo::from_value(bytes, &value).unwrap();
    assert_eq!(meta.info.name, "n");
    assert_eq!(meta.raw_info_hash, Some(sha1_of(b"d4:name1:n12:piece lengthi4e6:pieces0:e")));
    assert_eq!(meta, Metainfo::from_bytes(bytes).unwrap());
}

#[test]
fn values_end_where_they_were_written_to_end() {
    assert_eq!(skip_value(b"xxd1:ai-1e1:bl0:3:abceeyy", 2).unwrap(), 23);
    assert_eq!(skip_value(b"i12ei3e", 0).unwrap(), 4);
    assert_eq!(skip_value(b"i12ei3e", 4).unwrap(), 7);
    assert_eq!(skip_value(b"4:spam", 0).unwrap(), 6);
    assert_eq!(skip_value(b"le", 0).unwrap(), 2);
}

fn dict(entries: Vec<(&str, Value)>) -> Value {
    let map: HashMap<Vec<u8>, Value> =
        entries.into_iter().map(|(key, value)| (key.as_bytes().to_vec(), value)).collect();
    Value::Dict(map)
}

fn text(text: &str) -> Value {
    Value::Bytes(text.as_bytes().to_vec())
}

#[test]
fn info_is_written_as_the_bencode_library_writes_it() {
    let info = Info {
        name: "r\u{e9}sum\u{e9}".into(),
        piece_length: 32768,
        pieces: (0..40).collect(),
        length: None,
        files: Some(vec![
            FileEntry { length: 10, path: vec!["sub".into(), "a".into()], md5sum: None },
            FileEntry { length: 0, path: vec![], md5sum: Some("00ff".into()) },
        ]),
        private: Some(1),
    };
    let value = dict(vec![
        ("name", text("r\u{e9}sum\u{e9}")),
        ("piece length", Value::Int(32768)),
        ("pieces", Value::Bytes((0..40).collect())),
        (
            "files",
            Value::List(vec![
                dict(vec![
                    ("path", Value::List(vec![text("sub"), text("a")])),
                    ("length", Value::Int(10)),
                ]),
                dict(vec![
                    ("path", Value::List(vec![])),
                    ("md5sum", text("00ff")),
                    ("length", Value::Int(0)),
                ]),
            ]),
        ),
        ("private", Value::Int(1)),
    ]);
    let expected = serde_bencode::to_bytes(&value).unwrap();
    assert_eq!(info.to_bencode(), expected);
    assert_eq!(info.info_hash().unwrap(), sha1_of(&expected));
}

#[test]
fn a_copy_of_a_torrent_is_the_same_torrent() {
    let bytes = single_file_torrent();
    let mut torrent = Metainfo::from_bytes(&bytes).unwrap();
    torrent.announce_list = Some(vec![vec!["http://b/".into()], vec![]]);
    torrent.comment = Some("kept".into());
    let copy = torrent.clone();
    assert_eq!(copy.announce, torrent.announce);
    assert_eq!(copy.announce_list, torrent.announce_list);
    assert_eq!(copy.comment, torrent.comment);
    assert_eq!(copy.info.to_bencode(), torrent.info.to_bencode());
    assert_eq!(copy.raw_info_hash, torrent.raw_info_hash);
}

#[test]
fn keys_written_as_lists_are_refused() {
    let listed = "li110ei97ei109ei101ee";
    let info = format!("d6:lengthi12e{listed}4:test12:piece lengthi32768e6:pieces0:e");
    assert!(matches!(decode_error(&torrent(info.as_bytes())), BencodeError::NotADictionary));
    let top = format!("d{listed}4:test4:infod6:lengthi0e4:name1:a12:piece lengthi1e6:pieces0:ee");
    assert!(matches!(decode_error(top.as_bytes()), BencodeError::NotADictionary));
    let file = format!(
        "d5:filesld{listed}1:x6:lengthi1e4:pathl1:aeee4:name1:d12:piece lengthi1e6:pieces0:e"
    );
    assert!(matches!(decode_error(&torrent(file.as_bytes())), BencodeError::NotADictionary));
    // A dictionary that is not read may have such a key.
    let other = format!(
        "d5:extrad{listed}1:xe6:lengthi0e4:name1:a12:piece lengthi1e6:pieces0:e"
    );
    assert!(Metainfo::from_bytes(&torrent(other.as_bytes())).is_ok());
}

#[test]
fn no_value_begins_past_the_end() {
    for at in [3, 4, 100, usize::MAX] {
        assert!(matches!(
            skip_value(b"i1e", at),
            Err(Error::MalformedTorrent(text)) if text == "unexpected end of buffer"
        ));
    }
}

#[test]
fn unknown_values_are_passed_over() {
    // Under a key that is not read, a dictionary may have keys of any kind.
    let odd = "di1ei2eli3ee1:xdede4:deepdi4eleee";
    let info = format!(
        "d5:extra{odd}5:filesld5:extra{odd}6:lengthi1e4:pathl1:aeee4:name1:d\
         12:piece lengthi1e6:pieces20:AAAAAAAAAAAAAAAAAAAAe"
    );
    let top = format!("d5:extra{odd}4:info{info}e");
    let torrent = Metainfo::from_bytes(top.as_bytes()).unwrap();
    assert_eq!(torrent.info.name, "d");
    assert_eq!(torrent.info.files.as_ref().unwrap()[0].path, vec!["a".to_string()]);
    assert_eq!(torrent.info_hash().unwrap(), sha1_of(info.as_bytes()));
}

#[test]
fn values_of_known_keys_are_read_in_full() {
    let plain = "d6:lengthi0e4:name1:a12:piece lengthi1e6:pieces0:e";
    assert!(Metainfo::from_bytes(format!("d4:info{plain}e").as_bytes()).is_ok());
    // Keys that are no byte strings, where keys are read.
    let stray = format!("di1ei2e4:info{plain}e");
    assert!(matches!(decode_error(stray.as_bytes()), BencodeError::NotADictionary));
    let stray = "d4:infodi1ei2e6:lengthi0e4:name1:a12:piece lengthi1e6:pieces0:ee";
    assert!(matches!(decode_error(stray.as_bytes()), BencodeError::NotADictionary));
    // A value that is read must be of its kind.
    let odd = format!("d7:commentdi1ei2ee4:info{plain}e");
    assert!(matches!(decode_error(odd.as_bytes()), BencodeError::Syntax(_)));
    // Bytes that are no bencode are refused wherever they stand.
    for broken in ["i5xe", "di1ee", "l", "9:short", "x"] {
        let torrent = format!("d5:extra{broken}4:info{plain}e");
        assert!(matches!(decode_error(torrent.as_bytes()), BencodeError::Syntax(_)), "{broken}");
    }
}
