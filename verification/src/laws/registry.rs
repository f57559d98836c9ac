//! The list of torrents behind a desktop frontend.

use vstd::prelude::*;
use crate::digest::sha1_of;
use crate::error::Result;
use crate::laws::{lemma_hex, lemma_total, reads_as_hex, total_of};
use crate::laws::torrent::{has_one_form, has_plain_names, lemma_paths};
use crate::metainfo::{encoded_info, length_fits, Metainfo};
use crate::registry::{
    build_record, final_status, hash_of, record_views, with_all_restored, EntryView, Record,
    RecordView, Registry, Removal, RemoveMode, StartError, Status,
};

verus! {

/// Whether nothing changed but the entry of `id`.
pub open spec fn others_untouched(
    before: Map<Seq<char>, EntryView>,
    after: Map<Seq<char>, EntryView>,
    id: Seq<char>,
) -> bool {
    forall|other: Seq<char>|
        #![trigger before.dom().contains(other)]
        #![trigger after.dom().contains(other)]
        other != id ==> (after.dom().contains(other) == before.dom().contains(other)) && (
        before.dom().contains(other) ==> after[other] == before[other])
}

/// Whether two records describe the same torrent, whatever it is doing.
pub open spec fn same_torrent(a: RecordView, b: RecordView) -> bool {
    &&& a.id == b.id
    &&& a.name == b.name
    &&& a.torrent_path == b.torrent_path
    &&& a.output == b.output
    &&& a.total_bytes == b.total_bytes
    &&& a.files == b.files
    &&& a.root == b.root
}

/// Whether the entry of `id`, and no other, now has this status and runs or not.
pub open spec fn now_does(
    before: Map<Seq<char>, EntryView>,
    after: Map<Seq<char>, EntryView>,
    id: Seq<char>,
    status: Status,
    running: bool,
) -> bool {
    &&& others_untouched(before, after, id)
    &&& after.dom().contains(id)
    &&& same_torrent(after[id].record, before[id].record)
    &&& after[id].record.status == status
    &&& after[id].running == running
}

/// Whether nothing changed at all.
pub open spec fn untouched(
    before: Map<Seq<char>, EntryView>,
    after: Map<Seq<char>, EntryView>,
) -> bool {
    forall|id: Seq<char>|
        #![trigger before.dom().contains(id)]
        #![trigger after.dom().contains(id)]
        after.dom().contains(id) == before.dom().contains(id) && (before.dom().contains(id)
            ==> after[id] == before[id])
}

/// A download ends as complete just where all its pieces are there, whether or not it was
/// cancelled; an incomplete one ends as stopped just where it was cancelled, and else as stalled.
pub proof fn law_how_downloads_end(complete: bool, cancelled: bool, status: Status)
    requires
        call_ensures(final_status, (complete, cancelled), status),
    ensures
        status == Status::Complete <==> complete,
        !complete ==> (status == Status::Stopped <==> cancelled),
        !complete && !cancelled <==> status == Status::Stalled,
{
}

/// A torrent is added at most once: a new id is listed with its record and nothing running, an id
/// that is listed keeps its entry, and the answer tells which.
pub proof fn law_torrents_are_added_once(registry: &mut Registry, record: Record, added: bool)
    requires
        call_ensures(Registry::add, (registry, record), added),
    ensures
        added <==> !old(registry)@.dom().contains(record@.id),
        others_untouched(old(registry)@, final(registry)@, record@.id),
        final(registry)@.dom().contains(record@.id),
        added ==> {
            &&& final(registry)@[record@.id].record == record@
            &&& !final(registry)@[record@.id].running
        },
        !added ==> untouched(old(registry)@, final(registry)@),
{
}

/// Only a listed torrent that does not run is started: it is then shown as downloading, though
/// nothing runs yet, and its own torrent file and output directory are handed out. Otherwise
/// nothing changes.
pub proof fn law_only_idle_torrents_start(
    registry: &mut Registry,
    id: &str,
    result: std::result::Result<(String, String), StartError>,
)
    requires
        call_ensures(Registry::start, (registry, id), result),
    ensures
        match result {
            Ok((torrent, output)) => {
                &&& old(registry)@.dom().contains(id@)
                &&& !old(registry)@[id@].running
                &&& torrent@ == old(registry)@[id@].record.torrent_path
                &&& output@ == old(registry)@[id@].record.output
                &&& now_does(old(registry)@, final(registry)@, id@, Status::Downloading, false)
            },
            Err(error) => {
                &&& untouched(old(registry)@, final(registry)@)
                &&& error == StartError::Unknown <==> !old(registry)@.dom().contains(id@)
                &&& error == StartError::Running <==> old(registry)@.dom().contains(id@)
                    && old(registry)@[id@].running
            },
        },
{
}

/// Once a download runs for a listed torrent, it runs, and its status stays what it was; where
/// the torrent is gone, nothing changes and the answer is `false`.
pub proof fn law_published_downloads_run(registry: &mut Registry, id: &str, listed: bool)
    requires
        call_ensures(Registry::publish, (registry, id), listed),
    ensures
        listed <==> old(registry)@.dom().contains(id@),
        listed ==> now_does(
            old(registry)@,
            final(registry)@,
            id@,
            old(registry)@[id@].record.status,
            true,
        ),
        !listed ==> untouched(old(registry)@, final(registry)@),
{
}

/// Pausing pauses what runs, and is a no-op on anything else.
pub proof fn law_pausing_pauses_what_runs(registry: &mut Registry, id: &str, running: bool)
    requires
        call_ensures(Registry::pause, (registry, id), running),
    ensures
        running <==> old(registry)@.dom().contains(id@) && old(registry)@[id@].running,
        running ==> now_does(old(registry)@, final(registry)@, id@, Status::Paused, true),
        !running ==> untouched(old(registry)@, final(registry)@),
{
}

/// Resuming shows a listed torrent as downloading, and tells whether there is a download to
/// resume.
pub proof fn law_resuming_shows_downloading(registry: &mut Registry, id: &str, running: bool)
    requires
        call_ensures(Registry::resume, (registry, id), running),
    ensures
        running <==> old(registry)@.dom().contains(id@) && old(registry)@[id@].running,
        old(registry)@.dom().contains(id@) ==> now_does(
            old(registry)@,
            final(registry)@,
            id@,
            Status::Downloading,
            old(registry)@[id@].running,
        ),
        !old(registry)@.dom().contains(id@) ==> untouched(old(registry)@, final(registry)@),
{
}

/// Cancelling leaves a torrent in the list as stopped, and tells whether there is a download to
/// cancel.
pub proof fn law_cancelling_keeps_the_entry(registry: &mut Registry, id: &str, running: bool)
    requires
        call_ensures(Registry::cancel, (registry, id), running),
    ensures
        running <==> old(registry)@.dom().contains(id@) && old(registry)@[id@].running,
        old(registry)@.dom().contains(id@) ==> now_does(
            old(registry)@,
            final(registry)@,
            id@,
            Status::Stopped,
            old(registry)@[id@].running,
        ),
        !old(registry)@.dom().contains(id@) ==> untouched(old(registry)@, final(registry)@),
{
}

/// Setting a status sets that of one listed torrent and nothing else.
pub proof fn law_setting_a_status_sets_one(
    registry: &mut Registry,
    id: &str,
    status: Status,
    running: bool,
)
    requires
        call_ensures(Registry::set_status, (registry, id, status), running),
    ensures
        running <==> old(registry)@.dom().contains(id@) && old(registry)@[id@].running,
        old(registry)@.dom().contains(id@) ==> now_does(
            old(registry)@,
            final(registry)@,
            id@,
            status,
            old(registry)@[id@].running,
        ),
        !old(registry)@.dom().contains(id@) ==> untouched(old(registry)@, final(registry)@),
{
}

/// A finished download runs no longer and leaves its status behind.
pub proof fn law_finished_downloads_run_no_longer(
    registry: &mut Registry,
    id: &str,
    status: Status,
    result: (),
)
    requires
        call_ensures(Registry::finish, (registry, id, status), result),
    ensures
        old(registry)@.dom().contains(id@) ==> now_does(
            old(registry)@,
            final(registry)@,
            id@,
            status,
            false,
        ),
        !old(registry)@.dom().contains(id@) ==> untouched(old(registry)@, final(registry)@),
{
}

/// Removing takes a torrent out of the list, unless only its data is to go, when it stays as
/// stopped; data is deleted in the two modes that say so, a running download is always to be
/// cancelled, and the record handed out is that of the torrent.
pub proof fn law_removing_removes_what_was_asked(
    registry: &mut Registry,
    id: &str,
    mode: RemoveMode,
    removal: Option<Removal>,
)
    requires
        call_ensures(Registry::remove, (registry, id, mode), removal),
    ensures
        removal is Some <==> old(registry)@.dom().contains(id@),
        removal is None ==> untouched(old(registry)@, final(registry)@),
        removal matches Some(found) ==> {
            &&& others_untouched(old(registry)@, final(registry)@, id@)
            &&& final(registry)@.dom().contains(id@) <==> mode == RemoveMode::DataOnly
            &&& mode == RemoveMode::DataOnly ==> now_does(
                old(registry)@,
                final(registry)@,
                id@,
                Status::Stopped,
                false,
            )
            &&& found.cancel <==> old(registry)@[id@].running
            &&& found.delete <==> mode == RemoveMode::ListAndData || mode == RemoveMode::DataOnly
            &&& same_torrent(found.record@, old(registry)@[id@].record)
        },
{
}

/// Data goes only under the two names that say so; any other name removes from the list alone.
pub proof fn law_names_of_removals(name: &str, mode: RemoveMode)
    requires
        call_ensures(RemoveMode::named, (name,), mode),
    ensures
        mode == RemoveMode::DataOnly <==> name@ == "data_only"@,
        mode == RemoveMode::ListAndData <==> name@ == "list_and_data"@,
        mode == RemoveMode::List <==> name@ != "data_only"@ && name@ != "list_and_data"@,
{
    reveal_strlit("data_only");
    reveal_strlit("list_and_data");
    assert("data_only"@.len() != "list_and_data"@.len());
}

/// The name of a status is its own, and leads back to it; no other text does.
pub proof fn law_names_of_statuses(status: Status, name: &str, text: &str, found: Option<Status>)
    requires
        call_ensures(Status::as_str, (status,), name),
        call_ensures(Status::named, (text,), found),
    ensures
        status == Status::Downloading <==> name@ == "downloading"@,
        status == Status::Paused <==> name@ == "paused"@,
        status == Status::Complete <==> name@ == "complete"@,
        status == Status::Stopped <==> name@ == "stopped"@,
        status == Status::Stalled <==> name@ == "stalled"@,
        status == Status::Error <==> name@ == "error"@,
        text@ == name@ <==> found == Some(status),
{
    crate::registry::law_status_names_are_distinct(status, Status::Downloading);
    crate::registry::law_status_names_are_distinct(status, Status::Paused);
    crate::registry::law_status_names_are_distinct(status, Status::Complete);
    crate::registry::law_status_names_are_distinct(status, Status::Stopped);
    crate::registry::law_status_names_are_distinct(status, Status::Stalled);
    crate::registry::law_status_names_are_distinct(status, Status::Error);
    match found {
        Some(other) => crate::registry::law_status_names_are_distinct(status, other),
        None => {
            assert(status.name() != text@);
        },
    }
}

/// What is restored is every record, each as it was but stopped, or complete where it was
/// complete; nothing runs, and torrents that are not among the records stay as they were. Of
/// records with one id the last one counts.
pub proof fn law_restored_torrents_are_stopped(
    registry: &mut Registry,
    records: &Vec<Record>,
    result: (),
    at: int,
    id: Seq<char>,
)
    requires
        call_ensures(Registry::restore, (registry, records), result),
        0 <= at < records@.len(),
        forall|i: int| at < i < records@.len() ==> (#[trigger] records@[i])@.id != records@[at]@.id,
        forall|i: int| 0 <= i < records@.len() ==> (#[trigger] records@[i])@.id != id,
    ensures
        ({
            let record = records@[at]@;
            let after = final(registry)@;
            &&& after.dom().contains(record.id)
            &&& same_torrent(after[record.id].record, record)
            &&& !after[record.id].running
            &&& record.status == Status::Complete ==> after[record.id].record.status
                == Status::Complete
            &&& record.status != Status::Complete ==> after[record.id].record.status
                == Status::Stopped
            &&& after.dom().contains(id) == old(registry)@.dom().contains(id)
            &&& after.dom().contains(id) ==> after[id] == old(registry)@[id]
        }),
{
    let views = record_views(records@);
    assert forall|i: int| at < i < views.len() implies (#[trigger] views[i]).id != views[at].id by {
        assert(records@[i]@.id != records@[at]@.id);
    }
    assert forall|i: int| 0 <= i < views.len() implies (#[trigger] views[i]).id != id by {
        assert(records@[i]@.id != id);
    }
    lemma_restored(old(registry)@, views, at, id);
}

proof fn lemma_restored(
    torrents: Map<Seq<char>, EntryView>,
    records: Seq<RecordView>,
    at: int,
    id: Seq<char>,
)
    requires
        0 <= at < records.len(),
        forall|i: int| at < i < records.len() ==> (#[trigger] records[i]).id != records[at].id,
        forall|i: int| 0 <= i < records.len() ==> (#[trigger] records[i]).id != id,
    ensures
        ({
            let record = records[at];
            let after = with_all_restored(torrents, records);
            &&& after.dom().contains(record.id)
            &&& same_torrent(after[record.id].record, record)
            &&& !after[record.id].running
            &&& record.status == Status::Complete ==> after[record.id].record.status
                == Status::Complete
            &&& record.status != Status::Complete ==> after[record.id].record.status
                == Status::Stopped
            &&& after.dom().contains(id) == torrents.dom().contains(id)
            &&& after.dom().contains(id) ==> after[id] == torrents[id]
        }),
    decreases records.len(),
{
    let front = records.drop_last();
    lemma_others_restored(torrents, front, id);
    assert(records.last().id != id);
    if at < front.len() {
        assert forall|i: int| at < i < front.len() implies (#[trigger] front[i]).id
            != front[at].id by {
            assert(records[i].id != records[at].id);
        }
        assert forall|i: int| 0 <= i < front.len() implies (#[trigger] front[i]).id != id by {
            assert(records[i].id != id);
        }
        lemma_restored(torrents, front, at, id);
        assert(records[records.len() - 1].id != records[at].id);
    }
}

proof fn lemma_others_restored(
    torrents: Map<Seq<char>, EntryView>,
    records: Seq<RecordView>,
    id: Seq<char>,
)
    ensures
        (forall|i: int| 0 <= i < records.len() ==> (#[trigger] records[i]).id != id) ==> {
            let after = with_all_restored(torrents, records);
            &&& after.dom().contains(id) == torrents.dom().contains(id)
            &&& after.dom().contains(id) ==> after[id] == torrents[id]
        },
    decreases records.len(),
{
    if records.len() > 0 && forall|i: int|
        0 <= i < records.len() ==> (#[trigger] records[i]).id != id {
        let front = records.drop_last();
        assert forall|i: int| 0 <= i < front.len() implies (#[trigger] front[i]).id != id by {
            assert(records[i].id != id);
        }
        lemma_others_restored(torrents, front, id);
        assert(records[records.len() - 1].id != id);
    }
}

/// A torrent's record has the info hash in hexadecimal for its id, the name and the size of the
/// torrent, the two paths that it was given, every file below `output` and the torrent's name,
/// and a directory of its own just where it has a file list.
pub proof fn law_records_describe_their_torrent(
    meta: &Metainfo,
    torrent: &str,
    output: &str,
    status: Status,
    result: Result<Record>,
)
    requires
        length_fits(meta@.info),
        call_ensures(build_record, (meta, torrent, output, status), result),
    ensures
        result is Ok <==> has_one_form(meta@.info) && has_plain_names(meta@.info),
        result matches Ok(record) ==> {
            &&& meta@.raw_info_hash matches Some(hash) ==> reads_as_hex(record@.id, hash)
            &&& meta@.raw_info_hash is None ==> reads_as_hex(
                record@.id,
                sha1_of(encoded_info(meta@.info)),
            )
            &&& record@.name == meta@.info.name
            &&& record@.torrent_path == torrent@
            &&& record@.output == output@
            &&& record@.status == status
            &&& record@.total_bytes == total_of(meta@.info)
            &&& match meta@.info.files {
                Some(files) => {
                    &&& record@.root == Some(seq![output@, meta@.info.name])
                    &&& record@.files.len() == files.len()
                    &&& forall|i: int|
                        0 <= i < files.len() ==> #[trigger] record@.files[i] == seq![
                            output@,
                            meta@.info.name,
                        ] + files[i].path
                },
                None => {
                    &&& record@.root is None
                    &&& record@.files == seq![seq![output@, meta@.info.name]]
                },
            }
        },
{
    lemma_hex(hash_of(meta@));
    lemma_paths(seq![output@], meta@.info);
    match result {
        Ok(record) => {
            lemma_total(meta@.info);
            assert(seq![output@].push(meta@.info.name) =~= seq![output@, meta@.info.name]);
            if meta@.info.files is None {
                assert(record@.files =~= seq![seq![output@, meta@.info.name]]);
            }
        },
        Err(_) => {},
    }
}

} // verus!
