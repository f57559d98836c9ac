//! The list of torrents that a desktop frontend manages, by info hash.
//!
//! The registry decides; its owner talks to the running downloads, deletes files and stores the
//! list.

use vstd::prelude::*;
use crate::decode::tier_texts;
use crate::error::{Error, Fault, Result};
use crate::keyed::{
    distinct_keys, entry_map, lemma_entry_map_dom, lemma_entry_map_get, lemma_entry_map_len,
    lemma_entry_map_push, lemma_entry_map_remove, lemma_entry_map_update,
};
use crate::metainfo::{
    clone_texts, clone_tiers, encoded_info, length_fits, path_list, paths_under, texts,
    total_length_of, Info, InfoHash, InfoView, Metainfo, MetainfoView,
};
use crate::digest::sha1_of;
use crate::text::hex;

verus! {

/// What a torrent in the list is doing.
#[derive(Debug, Clone, Copy, PartialEq, Eq, Structural)]
pub enum Status {
    Downloading,
    Paused,
    /// All pieces are on disk.
    Complete,
    /// Not running: cancelled, or restored from an earlier run.
    Stopped,
    /// The peers were exhausted before the torrent was complete.
    Stalled,
    /// The download failed.
    Error,
}

/// A description of one torrent in the registry.
#[derive(Debug, PartialEq, Eq)]
pub struct Record {
    /// Info-hash hex; the stable unique id used everywhere.
    pub id: String,
    pub name: String,
    /// Path to the `.torrent` file (re-parsed on start / restart).
    pub torrent_path: String,
    /// Output directory the content is downloaded into.
    pub output: String,
    pub total_bytes: u64,
    /// Every file in the torrent (for data deletion), as the names from the output directory
    /// down.
    pub files: Vec<Vec<String>>,
    /// For multi-file torrents, the `output/<name>` directory to remove wholesale.
    pub root: Option<Vec<String>>,
    pub status: Status,
}

/// A [`Record`] over plain values.
#[verifier::ext_equal]
pub struct RecordView {
    pub id: Seq<char>,
    pub name: Seq<char>,
    pub torrent_path: Seq<char>,
    pub output: Seq<char>,
    pub total_bytes: u64,
    pub files: Seq<Seq<Seq<char>>>,
    pub root: Option<Seq<Seq<char>>>,
    pub status: Status,
}

impl View for Record {
    type V = RecordView;

    open spec fn view(&self) -> RecordView {
        RecordView {
            id: self.id@,
            name: self.name@,
            torrent_path: self.torrent_path@,
            output: self.output@,
            total_bytes: self.total_bytes,
            files: tier_texts(self.files@),
            root: match self.root {
                Some(root) => Some(texts(root@)),
                None => None,
            },
            status: self.status,
        }
    }
}

impl Clone for Record {
    fn clone(&self) -> (copy: Self)
        ensures
            copy@ == self@,
    {
        Record {
            id: self.id.clone(),
            name: self.name.clone(),
            torrent_path: self.torrent_path.clone(),
            output: self.output.clone(),
            total_bytes: self.total_bytes,
            files: clone_tiers(&self.files),
            root: match &self.root {
                Some(root) => Some(clone_texts(root)),
                None => None,
            },
            status: self.status,
        }
    }
}

/// The info hash of a torrent.
pub open spec fn hash_of(meta: MetainfoView) -> Seq<u8> {
    match meta.raw_info_hash {
        Some(hash) => hash,
        None => sha1_of(encoded_info(meta.info)),
    }
}

/// The record of a torrent, given its info hash, or why it has none.
pub open spec fn record_of(
    info: InfoView,
    hash: Seq<u8>,
    torrent: Seq<char>,
    output: Seq<char>,
    status: Status,
) -> std::result::Result<RecordView, Fault> {
    match total_length_of(info) {
        Err(fault) => Err(fault),
        Ok(total) => match paths_under(seq![output], info) {
            Err(fault) => Err(fault),
            Ok(paths) => Ok(
                RecordView {
                    id: hex(hash),
                    name: info.name,
                    torrent_path: torrent,
                    output,
                    total_bytes: total as u64,
                    files: Seq::new(paths.len(), |i: int| paths[i].0),
                    root: if info.files is Some {
                        Some(seq![output, info.name])
                    } else {
                        None
                    },
                    status,
                },
            ),
        },
    }
}

/// Assemble the [`Record`] of a parsed torrent that was read from `torrent` and goes to `output`.
pub fn build_record(meta: &Metainfo, torrent: &str, output: &str, status: Status) -> (result:
    Result<Record>)
    requires
        length_fits(meta@.info),
    ensures
        match record_of(meta@.info, hash_of(meta@), torrent@, output@, status) {
            Ok(record) => result matches Ok(found) && found@ == record,
            Err(fault) => result matches Err(error) && error@ == fault,
        },
{
    match meta.info_hash() {
        Err(error) => Err(error),
        Ok(hash) => record_for(meta, hash, torrent, output, status),
    }
}

/// Assemble the [`Record`] of a parsed torrent with the given info hash.
pub fn record_for(
    meta: &Metainfo,
    hash: InfoHash,
    torrent: &str,
    output: &str,
    status: Status,
) -> (result: Result<Record>)
    requires
        length_fits(meta@.info),
    ensures
        match record_of(meta@.info, hash@, torrent@, output@, status) {
            Ok(record) => result matches Ok(found) && found@ == record,
            Err(fault) => result matches Err(error) && error@ == fault,
        },
{
    let total_bytes: u64 = match meta.info.total_length() {
        Err(error) => return Err(error),
        Ok(total) => total,
    };
    let paths: Vec<(Vec<String>, u64)> = match meta.file_paths(output) {
        Err(error) => return Err(error),
        Ok(paths) => paths,
    };
    let ghost all = path_list(paths@);
    let mut files: Vec<Vec<String>> = Vec::new();
    let mut i: usize = 0;
    while i < paths.len()
        invariant
            i <= paths@.len(),
            all == path_list(paths@),
            files@.len() == i,
            forall|k: int| 0 <= k < i ==> texts((#[trigger] files@[k])@) == all[k].0,
        decreases paths@.len() - i,
    {
        files.push(clone_texts(&paths[i].0));
        i += 1;
    }
    assert(tier_texts(files@) =~= Seq::new(all.len(), |k: int| all[k].0));
    let root: Option<Vec<String>> = match &meta.info.files {
        Some(_) => {
            let mut root: Vec<String> = Vec::new();
            root.push(output.to_owned());
            root.push(meta.info.name.clone());
            assert(texts(root@) =~= seq![output@, meta@.info.name]);
            Some(root)
        },
        None => None,
    };
    Ok(
        Record {
            id: hash.to_string(),
            name: meta.info.name.clone(),
            torrent_path: torrent.to_owned(),
            output: output.to_owned(),
            total_bytes,
            files,
            root,
            status,
        },
    )
}

/// How a torrent is removed.
#[derive(Debug, Clone, Copy, PartialEq, Eq, Structural)]
pub enum RemoveMode {
    /// Forget the torrent, keep files on disk.
    List,
    /// Forget the torrent **and** delete its files.
    ListAndData,
    /// Delete its files but keep the entry (stopped).
    DataOnly,
}

impl RemoveMode {
    /// The way to remove a torrent that a name stands for; data goes only under the two names
    /// that say so.
    pub open spec fn for_name(name: Seq<char>) -> RemoveMode {
        if name == "data_only"@ {
            RemoveMode::DataOnly
        } else if name == "list_and_data"@ {
            RemoveMode::ListAndData
        } else {
            RemoveMode::List
        }
    }

    /// The way to remove a torrent that a name stands for.
    pub fn named(name: &str) -> (mode: RemoveMode)
        ensures
            mode == RemoveMode::for_name(name@),
    {
        let text: String = name.to_owned();
        if text == "data_only".to_owned() {
            RemoveMode::DataOnly
        } else if text == "list_and_data".to_owned() {
            RemoveMode::ListAndData
        } else {
            RemoveMode::List
        }
    }
}

/// What is left to do for a removal.
#[derive(Debug, PartialEq, Eq)]
pub struct Removal {
    /// The torrent as it was listed.
    pub record: Record,
    /// Cancel its running download.
    pub cancel: bool,
    /// Delete its files.
    pub delete: bool,
}

/// Why a torrent is not started.
#[derive(Debug, Clone, Copy, PartialEq, Eq, Structural)]
pub enum StartError {
    /// No torrent in the list has this id.
    Unknown,
    /// The torrent is already running.
    Running,
}

/// One torrent in the list.
#[derive(Debug)]
pub struct Entry {
    pub record: Record,
    /// Whether a download is running for it.
    pub running: bool,
}

/// An [`Entry`] over plain values.
#[verifier::ext_equal]
pub struct EntryView {
    pub record: RecordView,
    pub running: bool,
}

impl View for Entry {
    type V = EntryView;

    open spec fn view(&self) -> EntryView {
        EntryView { record: self.record@, running: self.running }
    }
}

/// The torrents of a list by id.
pub open spec fn entries_by_id(entries: Seq<Entry>) -> Seq<(Seq<char>, EntryView)> {
    Seq::new(entries.len(), |i: int| (entries[i].record.id@, entries[i]@))
}

/// The whole list of torrents, keyed by id.
#[derive(Debug)]
pub struct Registry {
    entries: Vec<Entry>,
}

impl View for Registry {
    type V = Map<Seq<char>, EntryView>;

    closed spec fn view(&self) -> Map<Seq<char>, EntryView> {
        entry_map(entries_by_id(self.entries@))
    }
}

/// A record with another status.
pub open spec fn with_status(record: RecordView, status: Status) -> RecordView {
    RecordView { status, ..record }
}

/// The list once a torrent's entry is changed; nothing happens where it is not in the list.
pub open spec fn changed(
    torrents: Map<Seq<char>, EntryView>,
    id: Seq<char>,
    entry: EntryView,
) -> Map<Seq<char>, EntryView> {
    if torrents.dom().contains(id) {
        torrents.insert(id, entry)
    } else {
        torrents
    }
}

/// What a restored torrent is doing: it comes back stopped, never resumed; a completed one stays
/// complete.
pub open spec fn restored_status(status: Status) -> Status {
    if status == Status::Complete {
        Status::Complete
    } else {
        Status::Stopped
    }
}

/// The list once a record is restored.
pub open spec fn with_restored(torrents: Map<Seq<char>, EntryView>, record: RecordView) -> Map<
    Seq<char>,
    EntryView,
> {
    torrents.insert(
        record.id,
        EntryView {
            record: with_status(record, restored_status(record.status)),
            running: false,
        },
    )
}

/// The list once records are restored, in order.
pub open spec fn with_all_restored(
    torrents: Map<Seq<char>, EntryView>,
    records: Seq<RecordView>,
) -> Map<Seq<char>, EntryView>
    decreases records.len(),
{
    if records.len() == 0 {
        torrents
    } else {
        with_restored(with_all_restored(torrents, records.drop_last()), records.last())
    }
}

/// The records of a list, over plain values.
pub open spec fn record_views(records: Seq<Record>) -> Seq<RecordView> {
    Seq::new(records.len(), |i: int| records[i]@)
}

/// The status that a download ends with.
pub open spec fn final_status_of(complete: bool, cancelled: bool) -> Status {
    if complete {
        Status::Complete
    } else if cancelled {
        Status::Stopped
    } else {
        Status::Stalled
    }
}

/// The status that a download ends with, once all its peers are done.
pub fn final_status(complete: bool, cancelled: bool) -> (status: Status)
    ensures
        status == final_status_of(complete, cancelled),
{
    if complete {
        Status::Complete
    } else if cancelled {
        Status::Stopped
    } else {
        Status::Stalled
    }
}

impl Status {
    /// The name of the status.
    pub open spec fn name(self) -> Seq<char> {
        match self {
            Status::Downloading => "downloading"@,
            Status::Paused => "paused"@,
            Status::Complete => "complete"@,
            Status::Stopped => "stopped"@,
            Status::Stalled => "stalled"@,
            Status::Error => "error"@,
        }
    }

    /// The name of the status.
    pub fn as_str(self) -> (name: &'static str)
        ensures
            name@ == self.name(),
    {
        match self {
            Status::Downloading => "downloading",
            Status::Paused => "paused",
            Status::Complete => "complete",
            Status::Stopped => "stopped",
            Status::Stalled => "stalled",
            Status::Error => "error",
        }
    }

    /// The status with this name.
    pub fn named(name: &str) -> (status: Option<Status>)
        ensures
            match status {
                Some(found) => found.name() == name@,
                None => forall|other: Status| #[trigger] other.name() != name@,
            },
    {
        let text: String = name.to_owned();
        if text == "downloading".to_owned() {
            Some(Status::Downloading)
        } else if text == "paused".to_owned() {
            Some(Status::Paused)
        } else if text == "complete".to_owned() {
            Some(Status::Complete)
        } else if text == "stopped".to_owned() {
            Some(Status::Stopped)
        } else if text == "stalled".to_owned() {
            Some(Status::Stalled)
        } else if text == "error".to_owned() {
            Some(Status::Error)
        } else {
            None
        }
    }
}

impl Default for Registry {
    fn default() -> (registry: Self)
        ensures
            registry@ == Map::<Seq<char>, EntryView>::empty(),
    {
        Registry::new()
    }
}

impl Registry {
    /// No id stands twice.
    #[verifier::type_invariant]
    spec fn well_formed(self) -> bool {
        distinct_keys(entries_by_id(self.entries@))
    }

    /// An empty list.
    pub fn new() -> (registry: Self)
        ensures
            registry@ == Map::<Seq<char>, EntryView>::empty(),
    {
        Registry { entries: Vec::new() }
    }

    fn find(&self, id: &str) -> (at: Option<usize>)
        ensures
            match at {
                Some(i) => {
                    &&& i < self.entries@.len()
                    &&& self.entries@[i as int].record.id@ == id@
                    &&& self@.dom().contains(id@)
                    &&& self@[id@] == self.entries@[i as int]@
                },
                None => {
                    &&& forall|i: int|
                        0 <= i < self.entries@.len() ==> (#[trigger] self.entries@[i]).record.id@
                            != id@
                    &&& !self@.dom().contains(id@)
                },
            },
    {
        proof {
            use_type_invariant(self);
        }
        let key: String = id.to_owned();
        let ghost views = entries_by_id(self.entries@);
        let mut i: usize = 0;
        while i < self.entries.len()
            invariant
                i <= self.entries@.len(),
                key@ == id@,
                views == entries_by_id(self.entries@),
                distinct_keys(views),
                forall|k: int| 0 <= k < i ==> (#[trigger] self.entries@[k]).record.id@ != id@,
            decreases self.entries@.len() - i,
        {
            if self.entries[i].record.id == key {
                proof {
                    lemma_entry_map_get(views, i as int);
                }
                return Some(i);
            }
            i += 1;
        }
        proof {
            lemma_entry_map_dom(views, id@);
            assert forall|k: int| 0 <= k < views.len() implies (#[trigger] views[k]).0
                != id@ by {
                assert(self.entries@[k].record.id@ != id@);
            }
        }
        None
    }

    /// Changes what an entry is doing.
    fn change(&mut self, at: usize, status: Status, running: bool)
        requires
            at < old(self).entries@.len(),
        ensures
            final(self)@ == old(self)@.insert(
                old(self).entries@[at as int].record.id@,
                EntryView {
                    record: with_status(old(self).entries@[at as int].record@, status),
                    running,
                },
            ),
    {
        proof {
            use_type_invariant(&*self);
        }
        let ghost before = self.entries@;
        let ghost views = entries_by_id(before);
        let mut whole = Registry::new();
        std::mem::swap(self, &mut whole);
        let Registry { mut entries } = whole;
        let mut record: Record = entries[at].record.clone();
        record.status = status;
        let entry = Entry { record, running };
        proof {
            lemma_entry_map_update(views, at as int, entry@);
            assert(entry@ == (EntryView {
                record: with_status(before[at as int].record@, status),
                running,
            }));
            assert(before[at as int]@.record == before[at as int].record@);
            assert(entry.record@.id == before[at as int].record@.id);
            assert(entries_by_id(before.update(at as int, entry)) =~= views.update(
                at as int,
                (views[at as int].0, entry@),
            ));
        }
        entries.set(at, entry);
        *self = Registry { entries };
    }

    /// Puts an entry with a new id into the list.
    fn append(&mut self, entry: Entry)
        requires
            !old(self)@.dom().contains(entry.record.id@),
        ensures
            final(self)@ == old(self)@.insert(entry.record.id@, entry@),
    {
        proof {
            use_type_invariant(&*self);
            let views = entries_by_id(self.entries@);
            lemma_entry_map_dom(views, entry.record.id@);
            lemma_entry_map_push(views, entry.record.id@, entry@);
            assert(entries_by_id(self.entries@.push(entry)) =~= views.push(
                (entry.record.id@, entry@),
            ));
        }
        let mut whole = Registry::new();
        std::mem::swap(self, &mut whole);
        let Registry { mut entries } = whole;
        entries.push(entry);
        *self = Registry { entries };
    }

    /// Number of torrents in the list.
    pub fn len(&self) -> (n: usize)
        ensures
            n == self@.dom().len(),
    {
        proof {
            use_type_invariant(self);
            lemma_entry_map_len(entries_by_id(self.entries@));
        }
        self.entries.len()
    }

    /// Every torrent in the list.
    pub fn records(&self) -> (records: Vec<Record>)
        ensures
            records@.len() == self@.dom().len(),
            forall|i: int|
                0 <= i < records@.len() ==> self@.dom().contains((#[trigger] records@[i])@.id)
                    && self@[records@[i]@.id].record == records@[i]@,
            forall|i: int, j: int|
                0 <= i < j < records@.len() ==> (#[trigger] records@[i])@.id != (
                #[trigger] records@[j])@.id,
    {
        proof {
            use_type_invariant(self);
            lemma_entry_map_len(entries_by_id(self.entries@));
        }
        let ghost views = entries_by_id(self.entries@);
        let mut records: Vec<Record> = Vec::new();
        let mut i: usize = 0;
        while i < self.entries.len()
            invariant
                i <= self.entries@.len(),
                records@.len() == i,
                forall|k: int|
                    0 <= k < i ==> (#[trigger] records@[k])@ == self.entries@[k].record@,
            decreases self.entries@.len() - i,
        {
            records.push(self.entries[i].record.clone());
            i += 1;
        }
        proof {
            assert forall|k: int| 0 <= k < records@.len() implies self@.dom().contains(
                (#[trigger] records@[k])@.id,
            ) && self@[records@[k]@.id].record == records@[k]@ by {
                lemma_entry_map_get(views, k);
                assert(views[k] == (self.entries@[k].record.id@, self.entries@[k]@));
            }
            assert forall|a: int, b: int| 0 <= a < b < records@.len() implies (
            #[trigger] records@[a])@.id != (#[trigger] records@[b])@.id by {
                assert(views[a].0 != views[b].0);
            }
        }
        records
    }

    /// Add a new torrent. Returns `false`, and changes nothing, where its id is already in the
    /// list.
    pub fn add(&mut self, record: Record) -> (added: bool)
        ensures
            added == !old(self)@.dom().contains(record@.id),
            final(self)@ == (if old(self)@.dom().contains(record@.id) {
                old(self)@
            } else {
                old(self)@.insert(record@.id, EntryView { record: record@, running: false })
            }),
    {
        match self.find(record.id.as_str()) {
            Some(_) => false,
            None => {
                self.append(Entry { record, running: false });
                true
            },
        }
    }

    /// (Re)start a stopped torrent already in the list: the `.torrent` file and the output
    /// directory to run it with.
    pub fn start(&mut self, id: &str) -> (result: std::result::Result<
        (String, String),
        StartError,
    >)
        ensures
            if !old(self)@.dom().contains(id@) {
                &&& result == Err::<(String, String), StartError>(StartError::Unknown)
                &&& final(self)@ == old(self)@
            } else if old(self)@[id@].running {
                &&& result == Err::<(String, String), StartError>(StartError::Running)
                &&& final(self)@ == old(self)@
            } else {
                &&& result matches Ok((torrent, output))
                &&& torrent@ == old(self)@[id@].record.torrent_path
                &&& output@ == old(self)@[id@].record.output
                &&& final(self)@ == old(self)@.insert(
                    id@,
                    EntryView {
                        record: with_status(old(self)@[id@].record, Status::Downloading),
                        running: false,
                    },
                )
            },
    {
        match self.find(id) {
            None => Err(StartError::Unknown),
            Some(at) => {
                if self.entries[at].running {
                    return Err(StartError::Running);
                }
                let torrent: String = self.entries[at].record.torrent_path.clone();
                let output: String = self.entries[at].record.output.clone();
                self.change(at, Status::Downloading, false);
                Ok((torrent, output))
            },
        }
    }

    /// A download now runs for a torrent. Returns `false` where the entry was removed meanwhile:
    /// the download is to be aborted.
    pub fn publish(&mut self, id: &str) -> (listed: bool)
        ensures
            listed == old(self)@.dom().contains(id@),
            final(self)@ == changed(
                old(self)@,
                id@,
                EntryView { running: true, ..old(self)@[id@] },
            ),
    {
        match self.find(id) {
            None => false,
            Some(at) => {
                let status: Status = self.entries[at].record.status;
                let ghost before = self@[id@];
                self.change(at, status, true);
                assert(with_status(before.record, status) =~= before.record);
                true
            },
        }
    }

    /// Pause a torrent (no-op if not running). Returns whether its download is to be paused.
    pub fn pause(&mut self, id: &str) -> (running: bool)
        ensures
            running == (old(self)@.dom().contains(id@) && old(self)@[id@].running),
            final(self)@ == (if running {
                old(self)@.insert(
                    id@,
                    EntryView {
                        record: with_status(old(self)@[id@].record, Status::Paused),
                        running: true,
                    },
                )
            } else {
                old(self)@
            }),
    {
        match self.find(id) {
            None => false,
            Some(at) => {
                if !self.entries[at].running {
                    return false;
                }
                self.change(at, Status::Paused, true);
                true
            },
        }
    }

    /// Resume a torrent. Returns whether its download is to be resumed.
    pub fn resume(&mut self, id: &str) -> (running: bool)
        ensures
            running == (old(self)@.dom().contains(id@) && old(self)@[id@].running),
            final(self)@ == changed(
                old(self)@,
                id@,
                EntryView {
                    record: with_status(old(self)@[id@].record, Status::Downloading),
                    ..old(self)@[id@]
                },
            ),
    {
        self.set_status(id, Status::Downloading)
    }

    /// Cancel a torrent (leaves it in the list as stopped). Returns whether its download is to
    /// be cancelled.
    pub fn cancel(&mut self, id: &str) -> (running: bool)
        ensures
            running == (old(self)@.dom().contains(id@) && old(self)@[id@].running),
            final(self)@ == changed(
                old(self)@,
                id@,
                EntryView {
                    record: with_status(old(self)@[id@].record, Status::Stopped),
                    ..old(self)@[id@]
                },
            ),
    {
        self.set_status(id, Status::Stopped)
    }

    /// Update a torrent's status. Returns whether its download is running.
    pub fn set_status(&mut self, id: &str, status: Status) -> (running: bool)
        ensures
            running == (old(self)@.dom().contains(id@) && old(self)@[id@].running),
            final(self)@ == changed(
                old(self)@,
                id@,
                EntryView {
                    record: with_status(old(self)@[id@].record, status),
                    ..old(self)@[id@]
                },
            ),
    {
        match self.find(id) {
            None => false,
            Some(at) => {
                let running: bool = self.entries[at].running;
                self.change(at, status, running);
                running
            },
        }
    }

    /// A torrent's download is over: nothing runs for it any more, and it has this status.
    pub fn finish(&mut self, id: &str, status: Status)
        ensures
            final(self)@ == changed(
                old(self)@,
                id@,
                EntryView {
                    record: with_status(old(self)@[id@].record, status),
                    running: false,
                },
            ),
    {
        match self.find(id) {
            None => {},
            Some(at) => {
                self.change(at, status, false);
            },
        }
    }

    /// Remove a torrent, in one of three ways. `None` where it is not in the list.
    pub fn remove(&mut self, id: &str, mode: RemoveMode) -> (removal: Option<Removal>)
        ensures
            if !old(self)@.dom().contains(id@) {
                removal is None && final(self)@ == old(self)@
            } else {
                let entry = old(self)@[id@];
                &&& removal matches Some(found)
                &&& found.cancel == entry.running
                &&& found.delete == (mode != RemoveMode::List)
                &&& found.record@ == (if mode == RemoveMode::DataOnly {
                    with_status(entry.record, Status::Stopped)
                } else {
                    entry.record
                })
                &&& final(self)@ == (if mode == RemoveMode::DataOnly {
                    old(self)@.insert(
                        id@,
                        EntryView {
                            record: with_status(entry.record, Status::Stopped),
                            running: false,
                        },
                    )
                } else {
                    old(self)@.remove(id@)
                })
            },
    {
        match self.find(id) {
            None => None,
            Some(at) => {
                let cancel: bool = self.entries[at].running;
                let mut record: Record = self.entries[at].record.clone();
                match mode {
                    RemoveMode::DataOnly => {
                        self.change(at, Status::Stopped, false);
                        record.status = Status::Stopped;
                        Some(Removal { record, cancel, delete: true })
                    },
                    RemoveMode::List => {
                        self.take_out(at);
                        Some(Removal { record, cancel, delete: false })
                    },
                    RemoveMode::ListAndData => {
                        self.take_out(at);
                        Some(Removal { record, cancel, delete: true })
                    },
                }
            },
        }
    }

    fn take_out(&mut self, at: usize)
        requires
            at < old(self).entries@.len(),
        ensures
            final(self)@ == old(self)@.remove(old(self).entries@[at as int].record.id@),
    {
        proof {
            use_type_invariant(&*self);
            let views = entries_by_id(self.entries@);
            lemma_entry_map_remove(views, at as int);
            assert(entries_by_id(self.entries@.remove(at as int)) =~= views.remove(at as int));
        }
        let mut whole = Registry::new();
        std::mem::swap(self, &mut whole);
        let Registry { mut entries } = whole;
        entries.remove(at);
        *self = Registry { entries };
    }

    /// Load the records of an earlier run. They come back *stopped* (never resumed); completed
    /// ones stay complete.
    pub fn restore(&mut self, records: &Vec<Record>)
        ensures
            final(self)@ == with_all_restored(old(self)@, record_views(records@)),
    {
        let ghost all = record_views(records@);
        let ghost before = self@;
        let mut i: usize = 0;
        assert(all.take(0) =~= Seq::<RecordView>::empty());
        while i < records.len()
            invariant
                i <= records@.len(),
                all == record_views(records@),
                self@ == with_all_restored(before, all.take(i as int)),
            decreases records@.len() - i,
        {
            self.restore_one(&records[i]);
            proof {
                assert(all.take(i + 1).drop_last() =~= all.take(i as int));
                assert(all.take(i + 1).last() == records@[i as int]@);
            }
            i += 1;
        }
        assert(all.take(i as int) =~= all);
    }

    fn restore_one(&mut self, record: &Record)
        ensures
            final(self)@ == with_restored(old(self)@, record@),
    {
        let status: Status = match record.status {
            Status::Complete => Status::Complete,
            _ => Status::Stopped,
        };
        match self.find(record.id.as_str()) {
            Some(at) => {
                self.take_out(at);
            },
            None => {},
        }
        let mut copy: Record = record.clone();
        copy.status = status;
        let ghost before = self@;
        self.append(Entry { record: copy, running: false });
        assert(self@ =~= with_restored(old(self)@, record@));
    }
}

/// No two statuses have the same name: what is stored under its name is found again.
pub proof fn law_status_names_are_distinct(a: Status, b: Status)
    ensures
        a.name() == b.name() <==> a == b,
{
    reveal_strlit("downloading");
    reveal_strlit("paused");
    reveal_strlit("complete");
    reveal_strlit("stopped");
    reveal_strlit("stalled");
    reveal_strlit("error");
    if a != b && a.name() == b.name() {
        assert(a.name()[0] == b.name()[0]);
        assert(a.name()[2] == b.name()[2]);
    }
}

/// Restoring starts nothing: every restored torrent is stopped or complete, and nothing runs.
pub proof fn law_restored_torrents_do_not_run(records: Seq<RecordView>, id: Seq<char>)
    ensures
        ({
            let torrents = with_all_restored(Map::<Seq<char>, EntryView>::empty(), records);
            torrents.dom().contains(id) ==> {
                &&& !torrents[id].running
                &&& torrents[id].record.status == Status::Complete || torrents[id].record.status
                    == Status::Stopped
                &&& torrents[id].record.id == id
            }
        }),
    decreases records.len(),
{
    if records.len() > 0 {
        law_restored_torrents_do_not_run(records.drop_last(), id);
    }
}

/// What is stored and restored is what was listed, but for what it was doing: a record's id,
/// name, paths and size come back as they were.
pub proof fn law_restoring_keeps_the_records(
    torrents: Map<Seq<char>, EntryView>,
    record: RecordView,
)
    ensures
        ({
            let after = with_restored(torrents, record);
            &&& after.dom().contains(record.id)
            &&& with_status(after[record.id].record, record.status) == record
            &&& forall|id: Seq<char>|
                id != record.id && torrents.dom().contains(id) ==> #[trigger] after.dom().contains(
                    id,
                ) && after[id] == torrents[id]
        }),
{
    let after = with_restored(torrents, record);
    assert(with_status(after[record.id].record, record.status) =~= record);
}

} // verus!
