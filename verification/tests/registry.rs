use torrentina::registry::{
    build_record, final_status, Record, Registry, RemoveMode, StartError, Status,
};
use torrentina::{Error, FileEntry, Info, InfoHash, Metainfo};

fn meta(files: bool) -> Metainfo {
    let entry = |length, name: &str| FileEntry {
        length,
        path: vec!["d".to_string(), name.to_string()],
        md5sum: None,
    };
    Metainfo {
        announce: None,
        announce_list: None,
        info: Info {
            name: "name".into(),
            piece_length: 16,
            pieces: vec![0u8; 20],
            length: if files { None } else { Some(16) },
            files: if files { Some(vec![entry(6, "a"), entry(10, "b")]) } else { None },
            private: None,
        },
        comment: None,
        created_by: None,
        creation_date: None,
        encoding: None,
        raw_info_hash: Some(InfoHash([0xab; 20])),
    }
}

fn record(files: bool) -> Record {
    build_record(&meta(files), "x.torrent", "/out", Status::Downloading).unwrap()
}

fn other(id: &str, status: Status) -> Record {
    let mut r = record(false);
    r.id = id.to_string();
    r.status = status;
    r
}

fn status(registry: &Registry, id: &str) -> Status {
    registry.records().into_iter().find(|r| r.id == id).unwrap().status
}

#[test]
fn records_describe_a_torrent() {
    let r = record(true);
    assert_eq!(r.id, "ab".repeat(20));
    assert_eq!(r.name, "name");
    assert_eq!(r.torrent_path, "x.torrent");
    assert_eq!(r.output, "/out");
    assert_eq!(r.total_bytes, 16);
    assert_eq!(r.files, vec![vec!["/out", "name", "d", "a"], vec!["/out", "name", "d", "b"]]);
    assert_eq!(r.root, Some(vec!["/out".to_string(), "name".to_string()]));
    assert_eq!(r.status, Status::Downloading);

    let r = record(false);
    assert_eq!(r.files, vec![vec!["/out", "name"]]);
    assert_eq!(r.root, None);

    let mut bad = meta(false);
    bad.info.length = None;
    assert!(matches!(
        build_record(&bad, "x", "/out", Status::Stopped),
        Err(Error::InvalidFileLayout)
    ));
    let mut bad = meta(false);
    bad.info.name = "a/b".into();
    assert!(matches!(
        build_record(&bad, "x", "/out", Status::Stopped),
        Err(Error::MalformedTorrent(_))
    ));
}

#[test]
fn a_torrent_is_listed_once() {
    let mut registry = Registry::new();
    assert!(registry.add(other("a", Status::Downloading)));
    assert!(!registry.add(other("a", Status::Stopped)));
    assert!(registry.add(other("b", Status::Downloading)));
    assert_eq!(registry.len(), 2);
    assert_eq!(status(&registry, "a"), Status::Downloading);
}

#[test]
fn starting_pausing_resuming_and_cancelling() {
    let mut registry = Registry::default();
    registry.add(other("a", Status::Stopped));
    assert_eq!(registry.start("zzz"), Err(StartError::Unknown));
    assert_eq!(registry.start("a"), Ok(("x.torrent".to_string(), "/out".to_string())));
    assert_eq!(status(&registry, "a"), Status::Downloading);

    // Not running yet: pausing is a no-op.
    assert!(!registry.pause("a"));
    assert_eq!(status(&registry, "a"), Status::Downloading);
    assert!(registry.publish("a"));
    assert!(!registry.publish("zzz"));
    assert_eq!(registry.start("a"), Err(StartError::Running));
    assert!(registry.pause("a"));
    assert_eq!(status(&registry, "a"), Status::Paused);
    assert!(registry.resume("a"));
    assert_eq!(status(&registry, "a"), Status::Downloading);
    assert!(registry.cancel("a"));
    assert_eq!(status(&registry, "a"), Status::Stopped);
    registry.finish("a", Status::Stalled);
    assert_eq!(status(&registry, "a"), Status::Stalled);
    assert!(!registry.cancel("a"));
    assert!(registry.start("a").is_ok());
    assert!(!registry.set_status("zzz", Status::Error));
    registry.finish("zzz", Status::Error);
    assert_eq!(registry.len(), 1);
}

#[test]
fn removing_in_three_ways() {
    let mut registry = Registry::new();
    for id in ["a", "b", "c"] {
        registry.add(other(id, Status::Downloading));
    }
    registry.publish("b");
    assert_eq!(registry.remove("zzz", RemoveMode::List), None);

    let removal = registry.remove("a", RemoveMode::List).unwrap();
    assert!(!removal.cancel && !removal.delete);
    assert_eq!(registry.len(), 2);

    let removal = registry.remove("b", RemoveMode::DataOnly).unwrap();
    assert!(removal.cancel && removal.delete);
    assert_eq!(removal.record.status, Status::Stopped);
    assert_eq!(registry.len(), 2);
    assert_eq!(status(&registry, "b"), Status::Stopped);
    assert!(registry.start("b").is_ok());

    let removal = registry.remove("c", RemoveMode::ListAndData).unwrap();
    assert!(!removal.cancel && removal.delete);
    assert_eq!(removal.record.id, "c");
    assert_eq!(registry.len(), 1);
}

#[test]
fn restored_torrents_are_stopped_or_complete() {
    let mut registry = Registry::new();
    let records = vec![
        other("a", Status::Downloading),
        other("b", Status::Complete),
        other("c", Status::Error),
        other("a", Status::Paused),
    ];
    registry.restore(&records);
    assert_eq!(registry.len(), 3);
    assert_eq!(status(&registry, "a"), Status::Stopped);
    assert_eq!(status(&registry, "b"), Status::Complete);
    assert_eq!(status(&registry, "c"), Status::Stopped);
    assert!(registry.start("a").is_ok());
}

#[test]
fn downloads_end_with_a_status() {
    assert_eq!(final_status(true, true), Status::Complete);
    assert_eq!(final_status(false, true), Status::Stopped);
    assert_eq!(final_status(false, false), Status::Stalled);
    let names: Vec<&str> = [
        Status::Downloading,
        Status::Paused,
        Status::Complete,
        Status::Stopped,
        Status::Stalled,
        Status::Error,
    ]
    .iter()
    .map(|s| s.as_str())
    .collect();
    assert_eq!(names, vec!["downloading", "paused", "complete", "stopped", "stalled", "error"]);
}

#[test]
fn statuses_are_found_by_their_names() {
    for status in [
        Status::Downloading,
        Status::Paused,
        Status::Complete,
        Status::Stopped,
        Status::Stalled,
        Status::Error,
    ] {
        assert_eq!(Status::named(status.as_str()), Some(status));
    }
    assert_eq!(Status::named("Complete"), None);
    assert_eq!(Status::named(""), None);
}

#[test]
fn only_two_names_delete_data() {
    assert_eq!(RemoveMode::named("list"), RemoveMode::List);
    assert_eq!(RemoveMode::named("list_and_data"), RemoveMode::ListAndData);
    assert_eq!(RemoveMode::named("data_only"), RemoveMode::DataOnly);
    assert_eq!(RemoveMode::named("anything else"), RemoveMode::List);
}
