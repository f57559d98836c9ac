//! Torrent files: their fields, info hash, trackers and paths.

use vstd::prelude::*;
use crate::digest::sha1_of;
use crate::error::{Fault, Result};
use crate::laws::{lemma_total, reads_as_hex, total_of};
use crate::metainfo::{
    first_appearances, first_unsafe, first_unsafe_of, flatten, is_unsafe_component,
    law_trackers_keep_their_order, law_trackers_without_repeats, length_fits, listed_trackers,
    path_list, paths_under, piece_hash, texts, FileEntryView, FileLayout, Info, InfoHash, InfoView,
    Metainfo, SHA1_LEN,
};

verus! {

// Trackers.

/// Whether `url` stands in some tier.
pub open spec fn in_some_tier(tiers: Seq<Seq<Seq<char>>>, url: Seq<char>) -> bool {
    exists|i: int, j: int|
        0 <= i < tiers.len() && 0 <= j < tiers[i].len() && #[trigger] tiers[i][j] == url
}

/// Whether `url` stands in tier `i` at `j` or before that place.
pub open spec fn stands_by(tiers: Seq<Seq<Seq<char>>>, i: int, j: int, url: Seq<char>) -> bool {
    exists|a: int, b: int|
        0 <= a < tiers.len() && 0 <= b < tiers[a].len() && (a < i || (a == i && b <= j))
            && #[trigger] tiers[a][b] == url
}

/// A URL is among the trackers of a torrent just where it is its announce URL or stands in some
/// tier of its announce-list, and it is among them once. The announce URL comes first.
pub proof fn law_trackers_of_a_torrent(meta: &Metainfo, urls: Vec<String>, url: Seq<char>)
    requires
        call_ensures(Metainfo::all_trackers, (meta,), urls),
    ensures
        texts(urls@).contains(url) <==> meta@.announce == Some(url) || (
        meta@.announce_list matches Some(tiers) && in_some_tier(tiers, url)),
        texts(urls@).no_duplicates(),
        meta@.announce matches Some(primary) ==> urls@.len() > 0 && urls@[0]@ == primary,
{
    let listed = listed_trackers(meta@);
    law_trackers_without_repeats(listed);
    let tiers = match meta@.announce_list {
        Some(tiers) => tiers,
        None => Seq::empty(),
    };
    lemma_flatten_contains(tiers, url);
    let rest = flatten(tiers);
    match meta@.announce {
        Some(primary) => {
            assert(listed =~= seq![primary] + rest);
            law_trackers_keep_their_order(seq![primary], rest);
            reveal_with_fuel(first_appearances, 3);
            assert(seq![primary].drop_last() =~= Seq::<Seq<char>>::empty());
            assert(first_appearances(seq![primary]) =~= seq![primary]);
            assert(first_appearances(listed)[0] == primary);
            assert(texts(urls@)[0] == urls@[0]@);
            if listed.contains(url) && url != primary {
                let k = choose|k: int| 0 <= k < listed.len() && listed[k] == url;
                assert(rest[k - 1] == url);
            }
            if rest.contains(url) {
                let k = choose|k: int| 0 <= k < rest.len() && rest[k] == url;
                assert(listed[k + 1] == url);
            }
            assert(listed[0] == primary);
        },
        None => {
            assert(listed =~= rest);
        },
    }
}

proof fn lemma_flatten_contains(tiers: Seq<Seq<Seq<char>>>, url: Seq<char>)
    ensures
        flatten(tiers).contains(url) <==> in_some_tier(tiers, url),
    decreases tiers.len(),
{
    if tiers.len() > 0 {
        let front = tiers.drop_last();
        let all = flatten(tiers);
        lemma_flatten_contains(front, url);
        if all.contains(url) {
            let k = choose|k: int| 0 <= k < all.len() && all[k] == url;
            if k < flatten(front).len() {
                assert(flatten(front)[k] == url);
                let (i, j) = choose|i: int, j: int|
                    0 <= i < front.len() && 0 <= j < front[i].len() && #[trigger] front[i][j]
                        == url;
                assert(tiers[i][j] == url);
            } else {
                assert(tiers[tiers.len() - 1][k - flatten(front).len()] == url);
            }
        }
        if in_some_tier(tiers, url) {
            let (i, j) = choose|i: int, j: int|
                0 <= i < tiers.len() && 0 <= j < tiers[i].len() && #[trigger] tiers[i][j] == url;
            if i < front.len() {
                assert(front[i][j] == url);
                let k = choose|k: int| 0 <= k < flatten(front).len() && flatten(front)[k] == url;
                assert(all[k] == url);
            } else {
                assert(all[flatten(front).len() + j] == url);
            }
        }
    }
}

/// The trackers of the tiers keep their order: one that stands at some place of the announce-list
/// comes out before any other that does not stand there or before, unless that is the announce
/// URL.
pub proof fn law_tiers_keep_their_order(
    meta: &Metainfo,
    urls: Vec<String>,
    i: int,
    j: int,
    a: int,
    b: int,
)
    requires
        call_ensures(Metainfo::all_trackers, (meta,), urls),
        meta@.announce_list is Some,
        0 <= i < meta@.announce_list->0.len(),
        0 <= j < meta@.announce_list->0[i].len(),
        0 <= a < urls@.len(),
        0 <= b < urls@.len(),
        urls@[a]@ == meta@.announce_list->0[i][j],
        meta@.announce != Some(urls@[b]@),
        !stands_by(meta@.announce_list->0, i, j, urls@[b]@),
    ensures
        a < b,
{
    let tiers = meta@.announce_list->0;
    let listed = listed_trackers(meta@);
    let first: Seq<Seq<char>> = match meta@.announce {
        Some(url) => seq![url],
        None => Seq::empty(),
    };
    let early = first + (flatten(tiers.take(i)) + tiers[i].take(j + 1));
    lemma_flatten_prefix(tiers, i);
    let whole = flatten(tiers.take(i)) + tiers[i];
    let part = flatten(tiers.take(i)) + tiers[i].take(j + 1);
    let late = flatten(tiers).skip(part.len() as int);
    assert(part =~= whole.take(part.len() as int));
    assert(part =~= flatten(tiers).take(part.len() as int));
    assert(flatten(tiers) =~= part + late);
    assert(listed =~= early + late);
    law_trackers_keep_their_order(early, late);
    law_trackers_without_repeats(early);
    law_trackers_without_repeats(listed);
    let u = urls@[a]@;
    let v = urls@[b]@;
    assert(texts(urls@)[a] == u);
    assert(texts(urls@)[b] == v);
    let out = first_appearances(listed);
    let front = first_appearances(early);
    assert(tiers[i].take(j + 1)[j] == u);
    assert(early[first.len() + flatten(tiers.take(i)).len() + j] == u);
    assert(early.contains(u));
    if early.contains(v) {
        let k = choose|k: int| 0 <= k < early.len() && early[k] == v;
        if k >= first.len() {
            let m = k - first.len();
            if m < flatten(tiers.take(i)).len() {
                assert(flatten(tiers.take(i))[m] == v);
                lemma_flatten_contains(tiers.take(i), v);
                let (x, y) = choose|x: int, y: int|
                    0 <= x < tiers.take(i).len() && 0 <= y < tiers.take(i)[x].len()
                        && #[trigger] tiers.take(i)[x][y] == v;
                assert(tiers[x][y] == v);
            } else {
                assert(tiers[i][m - flatten(tiers.take(i)).len()] == v);
            }
            assert(stands_by(tiers, i, j, v));
        }
    }
    assert(front.contains(u));
    let at = choose|at: int| 0 <= at < front.len() && front[at] == u;
    assert(out[at] == u);
    assert(a == at);
    if b < front.len() {
        assert(front[b] == v);
        assert(front.contains(v));
    }
}

/// The first tiers are what all the tiers begin with.
proof fn lemma_flatten_prefix(tiers: Seq<Seq<Seq<char>>>, i: int)
    requires
        0 <= i < tiers.len(),
    ensures
        (flatten(tiers.take(i)) + tiers[i]).is_prefix_of(flatten(tiers)),
    decreases tiers.len(),
{
    let front = tiers.drop_last();
    if i < front.len() {
        lemma_flatten_prefix(front, i);
        assert(front.take(i) =~= tiers.take(i));
    } else {
        assert(tiers.take(i) =~= front);
    }
}

// Names and paths.

/// Whether a name is one plain segment of a path: not empty, not `.` or `..`, and without a
/// separator or a NUL in it.
pub open spec fn is_plain_name(name: Seq<char>) -> bool {
    &&& name.len() > 0
    &&& name != seq!['.']
    &&& name != seq!['.', '.']
    &&& forall|i: int|
        0 <= i < name.len() ==> #[trigger] name[i] != '/' && name[i] != '\\' && name[i] != '\0'
}

/// Whether every name of a torrent is one plain segment of a path.
pub open spec fn has_plain_names(info: InfoView) -> bool {
    &&& is_plain_name(info.name)
    &&& info.files matches Some(files) ==> forall|i: int, k: int|
        0 <= i < files.len() && 0 <= k < files[i].path.len() ==> is_plain_name(
            #[trigger] files[i].path[k],
        )
}

/// Whether a torrent is of one of the two forms: a length, or a file list, and not both.
pub open spec fn has_one_form(info: InfoView) -> bool {
    info.length is Some != info.files is Some
}

pub(crate) proof fn lemma_plain_name(name: Seq<char>)
    ensures
        is_plain_name(name) <==> !is_unsafe_component(name),
{
    reveal_strlit(".");
    reveal_strlit("..");
    assert("."@ =~= seq!['.']);
    assert(".."@ =~= seq!['.', '.']);
    if !is_plain_name(name) && name.len() > 0 && name != seq!['.'] && name != seq!['.', '.'] {
        let i = choose|i: int|
            0 <= i < name.len() && !(#[trigger] name[i] != '/' && name[i] != '\\' && name[i]
                != '\0');
        assert(name.contains(name[i]));
    }
}

proof fn lemma_plain_path(path: Seq<Seq<char>>)
    ensures
        first_unsafe(path) is None <==> forall|k: int|
            0 <= k < path.len() ==> is_plain_name(#[trigger] path[k]),
    decreases path.len(),
{
    if path.len() > 0 {
        let front = path.drop_last();
        lemma_plain_path(front);
        lemma_plain_name(path.last());
        if first_unsafe(path) is None {
            assert forall|k: int| 0 <= k < path.len() implies is_plain_name(#[trigger] path[k]) by {
                if k < front.len() {
                    assert(front[k] == path[k]);
                }
            }
        }
        if forall|k: int| 0 <= k < path.len() ==> is_plain_name(#[trigger] path[k]) {
            assert forall|k: int| 0 <= k < front.len() implies is_plain_name(
                #[trigger] front[k],
            ) by {
                assert(path[k] == front[k]);
            }
            assert(is_plain_name(path[path.len() - 1]));
        }
    }
}

proof fn lemma_plain_files(files: Seq<FileEntryView>)
    ensures
        first_unsafe_of(files) is None <==> forall|i: int, k: int|
            0 <= i < files.len() && 0 <= k < files[i].path.len() ==> is_plain_name(
                #[trigger] files[i].path[k],
            ),
    decreases files.len(),
{
    if files.len() > 0 {
        let front = files.drop_last();
        lemma_plain_files(front);
        lemma_plain_path(files.last().path);
        if first_unsafe_of(files) is None {
            assert forall|i: int, k: int|
                0 <= i < files.len() && 0 <= k < files[i].path.len() implies is_plain_name(
                #[trigger] files[i].path[k],
            ) by {
                if i < front.len() {
                    assert(front[i].path[k] == files[i].path[k]);
                }
            }
        }
        if forall|i: int, k: int|
            0 <= i < files.len() && 0 <= k < files[i].path.len() ==> is_plain_name(
                #[trigger] files[i].path[k],
            ) {
            assert forall|i: int, k: int|
                0 <= i < front.len() && 0 <= k < front[i].path.len() implies is_plain_name(
                #[trigger] front[i].path[k],
            ) by {
                assert(files[i].path[k] == front[i].path[k]);
            }
            assert forall|k: int| 0 <= k < files.last().path.len() implies is_plain_name(
                #[trigger] files.last().path[k],
            ) by {
                assert(files[files.len() - 1].path[k] == files.last().path[k]);
            }
        }
    }
}

pub(crate) proof fn lemma_paths(root: Seq<Seq<char>>, info: InfoView)
    ensures
        paths_under(root, info) is Ok <==> has_one_form(info) && has_plain_names(info),
{
    lemma_plain_name(info.name);
    match info.files {
        Some(files) => lemma_plain_files(files),
        None => {},
    }
}

/// Paths are given just where the torrent has one form and plain names only; they are those of
/// its files, in order and with their lengths, each below the base directory and the torrent's
/// name, and none leads elsewhere.
pub proof fn law_paths_of_a_torrent(
    meta: &Metainfo,
    base_dir: &str,
    result: Result<Vec<(Vec<String>, u64)>>,
)
    requires
        call_ensures(Metainfo::file_paths, (meta, base_dir), result),
    ensures
        result is Ok <==> has_one_form(meta@.info) && has_plain_names(meta@.info),
        result matches Ok(paths) ==> match meta@.info.files {
            Some(files) => {
                &&& paths@.len() == files.len()
                &&& forall|i: int|
                    0 <= i < files.len() ==> texts((#[trigger] paths@[i]).0@) == seq![
                        base_dir@,
                        meta@.info.name,
                    ] + files[i].path && paths@[i].1 == files[i].length
            },
            None => {
                &&& paths@.len() == 1
                &&& texts(paths@[0].0@) == seq![base_dir@, meta@.info.name]
                &&& Some(paths@[0].1) == meta@.info.length
            },
        },
{
    let root = seq![base_dir@];
    lemma_paths(root, meta@.info);
    assert(root.push(meta@.info.name) =~= seq![base_dir@, meta@.info.name]);
    match result {
        Ok(paths) => {
            let list = path_list(paths@);
            assert(paths_under(root, meta@.info) == Ok::<Seq<(Seq<Seq<char>>, u64)>, Fault>(list));
            assert(list.len() == paths@.len());
            assert forall|i: int| 0 <= i < paths@.len() implies list[i] == (
                texts((#[trigger] paths@[i]).0@),
                paths@[i].1,
            ) by {}
            if meta@.info.files is None {
                assert(list[0] == (texts(paths@[0].0@), paths@[0].1));
            }
        },
        Err(_) => {},
    }
}

// Sizes.

/// The layout is that of one file just where there is a length and no file list, and that of the
/// file list just where there is one and no length.
pub proof fn law_layout_of_a_torrent(info: &Info, result: Result<FileLayout>)
    requires
        call_ensures(Info::layout, (info,), result),
    ensures
        match result {
            Ok(FileLayout::Single { length }) => info@.length == Some(length)
                && info@.files is None,
            Ok(FileLayout::Multi { files }) => info@.length is None && info@.files == Some(
                crate::metainfo::file_entries(files@),
            ),
            Err(error) => error@ is InvalidFileLayout && !has_one_form(info@),
        },
{
}

/// The total length is the sum of the lengths of all files.
pub proof fn law_length_of_a_torrent(info: &Info, result: Result<u64>, fits: bool)
    requires
        length_fits(info@),
        call_ensures(Info::total_length, (info,), result),
        call_ensures(Info::length_fits, (info,), fits),
    ensures
        result is Ok <==> has_one_form(info@),
        result matches Ok(total) ==> total == total_of(info@),
        fits,
{
    lemma_total(info@);
}

/// A torrent's content length is said to fit just where it is at most the largest 64-bit number.
pub proof fn law_lengths_that_fit(info: &Info, fits: bool)
    requires
        call_ensures(Info::length_fits, (info,), fits),
        has_one_form(info@),
    ensures
        fits <==> total_of(info@) <= 0xffff_ffff_ffff_ffff,
{
    lemma_total(info@);
}

/// The piece hashes are all the digests of `pieces`, in order and byte for byte; they are given
/// just where that is a whole number of digests.
pub proof fn law_piece_hashes_are_the_pieces(
    info: &Info,
    n: usize,
    result: Result<Vec<[u8; SHA1_LEN]>>,
)
    requires
        call_ensures(Info::num_pieces, (info,), n),
        call_ensures(Info::piece_hashes, (info,), result),
    ensures
        20 * n <= info@.pieces.len() < 20 * n + 20,
        result is Ok <==> info@.pieces.len() == 20 * n,
        result matches Ok(hashes) ==> hashes@.len() == n && forall|k: int|
            0 <= k < info@.pieces.len() ==> hashes@[k / 20]@[k % 20] == #[trigger] info@.pieces[k],
{
    match result {
        Ok(hashes) => {
            assert forall|k: int| 0 <= k < info@.pieces.len() implies hashes@[k / 20]@[k % 20]
                == #[trigger] info@.pieces[k] by {
                let hash = hashes@[k / 20];
                assert(hash@ == piece_hash(info@.pieces, k / 20));
                assert(hash@[k % 20] == info@.pieces[20 * (k / 20) + k % 20]);
            }
        },
        Err(_) => {},
    }
}

// Hashes.

/// The info hash is the one that was taken from the original bytes, where there is one, and else
/// that of the serialized info dictionary; it is written as forty hexadecimal digits.
pub proof fn law_info_hash_of_a_torrent(
    meta: &Metainfo,
    result: Result<InfoHash>,
    serialized: Vec<u8>,
    text: String,
)
    requires
        call_ensures(Metainfo::info_hash, (meta,), result),
        call_ensures(Info::to_bencode, (&meta.info,), serialized),
        result is Ok ==> call_ensures(InfoHash::to_string, (&result->Ok_0,), text),
    ensures
        result matches Ok(hash) && {
            &&& meta.raw_info_hash matches Some(raw) ==> hash@ == raw@
            &&& meta.raw_info_hash is None ==> hash@ == sha1_of(serialized@)
            &&& text@.len() == 40
            &&& reads_as_hex(text@, hash@)
        },
{
    match result {
        Ok(hash) => {
            crate::laws::lemma_hex(hash@);
            assert(hash@.len() == 20);
        },
        Err(_) => {},
    }
}

} // verus!
