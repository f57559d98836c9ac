//! Typed readings of bencoded values: text, numbers, lists, and the dictionaries of a torrent.

use vstd::prelude::*;
use vstd::utf8::{decode_utf8, encode_utf8, valid_utf8};
use crate::bencode::{
    entries_view, lemma_entries_view, lemma_list_view, list_view, lookup, Bencode, BencodeView,
};
use crate::error::{BencodeError, BencodeFault};
use crate::keyed::{entry_map, lemma_entry_map_dom};
use crate::metainfo::{
    file_entries, optional_text, texts, FileEntry, FileEntryView, Info, InfoView, Metainfo,
    MetainfoView,
};
use crate::text::utf8_text;

verus! {

/// A result of reading a dictionary.
pub type Reading<T> = std::result::Result<T, BencodeFault>;

/// A dictionary's keys and values.
pub type Entries = Map<Seq<u8>, BencodeView>;

/// A value read as text: a byte string in UTF-8.
pub open spec fn as_text(value: BencodeView) -> Option<Seq<char>> {
    match value {
        BencodeView::Str(bytes) => if valid_utf8(bytes) {
            Some(decode_utf8(bytes))
        } else {
            None
        },
        _ => None,
    }
}

/// A value read as a number.
pub open spec fn as_i64(value: BencodeView) -> Option<i64> {
    match value {
        BencodeView::Int(n) => Some(n),
        _ => None,
    }
}

/// A value read as a number that is not negative.
pub open spec fn as_u64(value: BencodeView) -> Option<u64> {
    match value {
        BencodeView::Int(n) => if n >= 0 {
            Some(n as u64)
        } else {
            None
        },
        _ => None,
    }
}

/// A value read as a number of one byte.
pub open spec fn as_u8(value: BencodeView) -> Option<u8> {
    match value {
        BencodeView::Int(n) => if 0 <= n <= 255 {
            Some(n as u8)
        } else {
            None
        },
        _ => None,
    }
}

/// A value read as bytes: a byte string, or a list of numbers of one byte each.
pub open spec fn as_bytes(value: BencodeView) -> Option<Seq<u8>> {
    match value {
        BencodeView::Str(bytes) => Some(bytes),
        BencodeView::List(items) => as_all(items, |item: BencodeView| as_u8(item)),
        _ => None,
    }
}

/// All the items, each read by `read`; `None` where one cannot be read.
pub open spec fn as_all<T>(
    items: Seq<BencodeView>,
    read: spec_fn(BencodeView) -> Option<T>,
) -> Option<Seq<T>> {
    if forall|i: int| 0 <= i < items.len() ==> read(#[trigger] items[i]) is Some {
        Some(Seq::new(items.len(), |i: int| read(items[i])->0))
    } else {
        None
    }
}

/// A value read as a list, each item read by `read`.
pub open spec fn as_list<T>(
    value: BencodeView,
    read: spec_fn(BencodeView) -> Option<T>,
) -> Option<Seq<T>> {
    match value {
        BencodeView::List(items) => as_all(items, read),
        _ => None,
    }
}

/// A value read as a list of texts.
pub open spec fn as_texts(value: BencodeView) -> Option<Seq<Seq<char>>> {
    as_list(value, |item: BencodeView| as_text(item))
}

/// A value read as a list of lists of texts.
pub open spec fn as_tiers(value: BencodeView) -> Option<Seq<Seq<Seq<char>>>> {
    as_list(value, |item: BencodeView| as_texts(item))
}

/// A value read as a dictionary whose keys are all text.
pub open spec fn as_dict(value: BencodeView) -> Option<Entries> {
    match value {
        BencodeView::Dict(map) => if forall|key: Seq<u8>|
            map.dom().contains(key) ==> #[trigger] valid_utf8(key) {
            Some(map)
        } else {
            None
        },
        _ => None,
    }
}

/// The value under `key`, read by `read`; there need not be one.
pub open spec fn optional<T>(
    map: Entries,
    key: Seq<char>,
    read: spec_fn(BencodeView) -> Option<T>,
) -> Reading<Option<T>> {
    if !map.dom().contains(encode_utf8(key)) {
        Ok(None)
    } else {
        match read(map[encode_utf8(key)]) {
            Some(value) => Ok(Some(value)),
            None => Err(BencodeFault::InvalidField(key)),
        }
    }
}

/// The value under `key`, read by `read`; there must be one.
pub open spec fn required<T>(
    map: Entries,
    key: Seq<char>,
    read: spec_fn(BencodeView) -> Option<T>,
) -> Reading<T> {
    match optional(map, key, read) {
        Ok(Some(value)) => Ok(value),
        Ok(None) => Err(BencodeFault::MissingField(key)),
        Err(fault) => Err(fault),
    }
}

/// A value read as an entry of a file list.
pub open spec fn file_of(value: BencodeView) -> Option<FileEntryView> {
    match as_dict(value) {
        None => None,
        Some(map) => match (
            required(map, "length"@, |v: BencodeView| as_u64(v)),
            required(map, "path"@, |v: BencodeView| as_texts(v)),
            optional(map, "md5sum"@, |v: BencodeView| as_text(v)),
        ) {
            (Ok(length), Ok(path), Ok(md5sum)) => Some(FileEntryView { length, path, md5sum }),
            _ => None,
        },
    }
}

/// A value read as a file list.
pub open spec fn files_of(value: BencodeView) -> Option<Seq<FileEntryView>> {
    as_list(value, |item: BencodeView| file_of(item))
}

/// A value read as an info dictionary, or the first thing wrong with it.
pub open spec fn info_of(value: BencodeView) -> Reading<InfoView> {
    match as_dict(value) {
        None => Err(BencodeFault::NotADictionary),
        Some(map) => match required(map, "name"@, |v: BencodeView| as_text(v)) {
            Err(fault) => Err(fault),
            Ok(name) => match required(map, "piece length"@, |v: BencodeView| as_u64(v)) {
                Err(fault) => Err(fault),
                Ok(piece_length) => match required(
                    map,
                    "pieces"@,
                    |v: BencodeView| as_bytes(v),
                ) {
                    Err(fault) => Err(fault),
                    Ok(pieces) => match optional(map, "length"@, |v: BencodeView| as_u64(v)) {
                        Err(fault) => Err(fault),
                        Ok(length) => match optional(
                            map,
                            "files"@,
                            |v: BencodeView| files_of(v),
                        ) {
                            Err(fault) => Err(fault),
                            Ok(files) => match optional(
                                map,
                                "private"@,
                                |v: BencodeView| as_u8(v),
                            ) {
                                Err(fault) => Err(fault),
                                Ok(private) => Ok(
                                    InfoView {
                                        name,
                                        piece_length,
                                        pieces,
                                        length,
                                        files,
                                        private,
                                    },
                                ),
                            },
                        },
                    },
                },
            },
        },
    }
}

/// The info dictionary under `info`.
pub open spec fn required_info(map: Entries) -> Reading<InfoView> {
    if map.dom().contains(encode_utf8("info"@)) {
        info_of(map[encode_utf8("info"@)])
    } else {
        Err(BencodeFault::MissingField("info"@))
    }
}

/// A value read as a torrent, or the first thing wrong with it.
pub open spec fn metainfo_of(value: BencodeView) -> Reading<MetainfoView> {
    match as_dict(value) {
        None => Err(BencodeFault::NotADictionary),
        Some(map) => match optional(map, "announce"@, |v: BencodeView| as_text(v)) {
            Err(fault) => Err(fault),
            Ok(announce) => match optional(
                map,
                "announce-list"@,
                |v: BencodeView| as_tiers(v),
            ) {
                Err(fault) => Err(fault),
                Ok(announce_list) => match required_info(map) {
                    Err(fault) => Err(fault),
                    Ok(info) => match optional(map, "comment"@, |v: BencodeView| as_text(v)) {
                        Err(fault) => Err(fault),
                        Ok(comment) => match optional(
                            map,
                            "created by"@,
                            |v: BencodeView| as_text(v),
                        ) {
                            Err(fault) => Err(fault),
                            Ok(created_by) => match optional(
                                map,
                                "creation date"@,
                                |v: BencodeView| as_i64(v),
                            ) {
                                Err(fault) => Err(fault),
                                Ok(creation_date) => match optional(
                                    map,
                                    "encoding"@,
                                    |v: BencodeView| as_text(v),
                                ) {
                                    Err(fault) => Err(fault),
                                    Ok(encoding) => Ok(
                                        MetainfoView {
                                            announce,
                                            announce_list,
                                            info,
                                            comment,
                                            created_by,
                                            creation_date,
                                            encoding,
                                            raw_info_hash: None,
                                        },
                                    ),
                                },
                            },
                        },
                    },
                },
            },
        },
    }
}

/// Reads text.
pub fn read_text(value: &Bencode) -> (text: Option<String>)
    ensures
        optional_text(text) == as_text(value.view()),
{
    match value {
        Bencode::Str(bytes) => match utf8_text(bytes.as_slice()) {
            Some(text) => Some(text.to_owned()),
            None => None,
        },
        _ => None,
    }
}

fn read_i64(value: &Bencode) -> (number: Option<i64>)
    ensures
        number == as_i64(value.view()),
{
    match value {
        Bencode::Int(n) => Some(*n),
        _ => None,
    }
}

fn read_u64(value: &Bencode) -> (number: Option<u64>)
    ensures
        number == as_u64(value.view()),
{
    match value {
        Bencode::Int(n) => {
            if *n >= 0 {
                Some(*n as u64)
            } else {
                None
            }
        },
        _ => None,
    }
}

fn read_u8(value: &Bencode) -> (number: Option<u8>)
    ensures
        number == as_u8(value.view()),
{
    match value {
        Bencode::Int(n) => {
            if 0 <= *n && *n <= 255 {
                Some(*n as u8)
            } else {
                None
            }
        },
        _ => None,
    }
}

#[verifier::loop_isolation(false)]
fn read_bytes(value: &Bencode) -> (bytes: Option<Vec<u8>>)
    ensures
        match bytes {
            Some(bytes) => as_bytes(value.view()) == Some(bytes@),
            None => as_bytes(value.view()) is None,
        },
{
    match value {
        Bencode::Str(bytes) => {
            let copy: Vec<u8> = bytes.clone();
            assert(copy@ =~= bytes@);
            Some(copy)
        },
        Bencode::List(items) => {
            let ghost views = list_view(items@);
            let ghost read = |item: BencodeView| as_u8(item);
            proof {
                lemma_list_view(items@);
            }
            let mut bytes: Vec<u8> = Vec::new();
            let mut i: usize = 0;
            while i < items.len()
                invariant
                    i <= items@.len(),
                    views.len() == items@.len(),
                    forall|k: int| 0 <= k < views.len() ==> views[k] == #[trigger] items@[k].view(),
                    bytes@.len() == i,
                    forall|k: int|
                        0 <= k < i ==> as_u8(#[trigger] views[k]) == Some(bytes@[k]),
                decreases items@.len() - i,
            {
                assert(views[i as int] == items@[i as int].view());
                match read_u8(&items[i]) {
                    Some(byte) => {
                        bytes.push(byte);
                    },
                    None => {
                        assert(read(views[i as int]) is None);
                        return None;
                    },
                }
                i += 1;
            }
            proof {
                assert forall|k: int| 0 <= k < views.len() implies read(#[trigger] views[k])
                    is Some by {
                    assert(as_u8(views[k]) == Some(bytes@[k]));
                }
                assert(as_all(views, read)->0 =~= bytes@);
            }
            Some(bytes)
        },
        _ => None,
    }
}

#[verifier::loop_isolation(false)]
fn read_texts(value: &Bencode) -> (strings: Option<Vec<String>>)
    ensures
        match strings {
            Some(strings) => as_texts(value.view()) == Some(texts(strings@)),
            None => as_texts(value.view()) is None,
        },
{
    match value {
        Bencode::List(items) => {
            let ghost views = list_view(items@);
            let ghost read = |item: BencodeView| as_text(item);
            proof {
                lemma_list_view(items@);
            }
            let mut strings: Vec<String> = Vec::new();
            let mut i: usize = 0;
            while i < items.len()
                invariant
                    i <= items@.len(),
                    views.len() == items@.len(),
                    forall|k: int| 0 <= k < views.len() ==> views[k] == #[trigger] items@[k].view(),
                    strings@.len() == i,
                    forall|k: int|
                        0 <= k < i ==> as_text(#[trigger] views[k]) == Some(strings@[k]@),
                decreases items@.len() - i,
            {
                assert(views[i as int] == items@[i as int].view());
                match read_text(&items[i]) {
                    Some(string) => {
                        strings.push(string);
                    },
                    None => {
                        assert(read(views[i as int]) is None);
                        return None;
                    },
                }
                i += 1;
            }
            proof {
                assert forall|k: int| 0 <= k < views.len() implies read(#[trigger] views[k])
                    is Some by {
                    assert(as_text(views[k]) == Some(strings@[k]@));
                }
                assert(as_all(views, read)->0 =~= texts(strings@));
            }
            Some(strings)
        },
        _ => None,
    }
}

/// The texts of tiers.
pub open spec fn tier_texts(tiers: Seq<Vec<String>>) -> Seq<Seq<Seq<char>>> {
    Seq::new(tiers.len(), |i: int| texts(tiers[i]@))
}

#[verifier::loop_isolation(false)]
fn read_tiers(value: &Bencode) -> (tiers: Option<Vec<Vec<String>>>)
    ensures
        match tiers {
            Some(tiers) => as_tiers(value.view()) == Some(tier_texts(tiers@)),
            None => as_tiers(value.view()) is None,
        },
{
    match value {
        Bencode::List(items) => {
            let ghost views = list_view(items@);
            let ghost read = |item: BencodeView| as_texts(item);
            proof {
                lemma_list_view(items@);
            }
            let mut tiers: Vec<Vec<String>> = Vec::new();
            let mut i: usize = 0;
            while i < items.len()
                invariant
                    i <= items@.len(),
                    views.len() == items@.len(),
                    forall|k: int| 0 <= k < views.len() ==> views[k] == #[trigger] items@[k].view(),
                    tiers@.len() == i,
                    forall|k: int|
                        0 <= k < i ==> as_texts(#[trigger] views[k]) == Some(texts(tiers@[k]@)),
                decreases items@.len() - i,
            {
                assert(views[i as int] == items@[i as int].view());
                match read_texts(&items[i]) {
                    Some(tier) => {
                        tiers.push(tier);
                    },
                    None => {
                        assert(read(views[i as int]) is None);
                        return None;
                    },
                }
                i += 1;
            }
            proof {
                assert forall|k: int| 0 <= k < views.len() implies read(#[trigger] views[k])
                    is Some by {
                    assert(as_texts(views[k]) == Some(texts(tiers@[k]@)));
                }
                assert(as_all(views, read)->0 =~= tier_texts(tiers@));
            }
            Some(tiers)
        },
        _ => None,
    }
}

/// The entries of a dictionary whose keys are all text.
fn read_dict(value: &Bencode) -> (entries: Option<&Vec<(Vec<u8>, Bencode)>>)
    ensures
        match entries {
            Some(entries) => as_dict(value.view()) == Some(entry_map(entries_view(entries@))),
            None => as_dict(value.view()) is None,
        },
{
    match value {
        Bencode::Dict(entries) => {
            let ghost views = entries_view(entries@);
            proof {
                lemma_entries_view(entries@);
            }
            let mut i: usize = 0;
            while i < entries.len()
                invariant
                    i <= entries@.len(),
                    views == entries_view(entries@),
                    value.view() == BencodeView::Dict(entry_map(views)),
                    views.len() == entries@.len(),
                    forall|k: int|
                        0 <= k < views.len() ==> #[trigger] views[k] == (
                            entries@[k].0@,
                            entries@[k].1.view(),
                        ),
                    forall|k: int| 0 <= k < i ==> valid_utf8((#[trigger] views[k]).0),
                decreases entries@.len() - i,
            {
                assert(views[i as int].0 == entries@[i as int].0@);
                match utf8_text(entries[i].0.as_slice()) {
                    Some(_) => {},
                    None => {
                        proof {
                            lemma_entry_map_dom(views, views[i as int].0);
                        }
                        return None;
                    },
                }
                i += 1;
            }
            proof {
                assert forall|key: Seq<u8>|
                    entry_map(views).dom().contains(key) implies #[trigger] valid_utf8(key) by {
                    lemma_entry_map_dom(views, key);
                }
            }
            Some(entries)
        },
        _ => None,
    }
}

fn read_file(value: &Bencode) -> (file: Option<FileEntry>)
    ensures
        match file {
            Some(file) => file_of(value.view()) == Some(file@),
            None => file_of(value.view()) is None,
        },
{
    let entries = match read_dict(value) {
        Some(entries) => entries,
        None => return None,
    };
    let length: u64 = match lookup(entries, "length") {
        None => return None,
        Some(found) => match read_u64(found) {
            None => return None,
            Some(length) => length,
        },
    };
    let path: Vec<String> = match lookup(entries, "path") {
        None => return None,
        Some(found) => match read_texts(found) {
            None => return None,
            Some(path) => path,
        },
    };
    let md5sum: Option<String> = match lookup(entries, "md5sum") {
        None => None,
        Some(found) => match read_text(found) {
            None => return None,
            Some(md5sum) => Some(md5sum),
        },
    };
    Some(FileEntry { length, path, md5sum })
}

#[verifier::loop_isolation(false)]
fn read_files(value: &Bencode) -> (files: Option<Vec<FileEntry>>)
    ensures
        match files {
            Some(files) => files_of(value.view()) == Some(file_entries(files@)),
            None => files_of(value.view()) is None,
        },
{
    match value {
        Bencode::List(items) => {
            let ghost views = list_view(items@);
            let ghost read = |item: BencodeView| file_of(item);
            proof {
                lemma_list_view(items@);
            }
            let mut files: Vec<FileEntry> = Vec::new();
            let mut i: usize = 0;
            while i < items.len()
                invariant
                    i <= items@.len(),
                    views.len() == items@.len(),
                    forall|k: int| 0 <= k < views.len() ==> views[k] == #[trigger] items@[k].view(),
                    files@.len() == i,
                    forall|k: int|
                        0 <= k < i ==> file_of(#[trigger] views[k]) == Some(files@[k]@),
                decreases items@.len() - i,
            {
                assert(views[i as int] == items@[i as int].view());
                match read_file(&items[i]) {
                    Some(file) => {
                        files.push(file);
                    },
                    None => {
                        assert(read(views[i as int]) is None);
                        return None;
                    },
                }
                i += 1;
            }
            proof {
                assert forall|k: int| 0 <= k < views.len() implies read(#[trigger] views[k])
                    is Some by {
                    assert(file_of(views[k]) == Some(files@[k]@));
                }
                assert(as_all(views, read)->0 =~= file_entries(files@));
            }
            Some(files)
        },
        _ => None,
    }
}

/// What a reading gives, over plain values.
pub open spec fn reading<T: View>(result: std::result::Result<T, BencodeError>) -> Reading<T::V> {
    match result {
        Ok(value) => Ok(value@),
        Err(error) => Err(error@),
    }
}

fn missing<T>(key: &str) -> (result: std::result::Result<T, BencodeError>)
    ensures
        result matches Err(error) && error@ == BencodeFault::MissingField(key@),
{
    Err(BencodeError::MissingField(key.to_owned()))
}

fn invalid<T>(key: &str) -> (result: std::result::Result<T, BencodeError>)
    ensures
        result matches Err(error) && error@ == BencodeFault::InvalidField(key@),
{
    Err(BencodeError::InvalidField(key.to_owned()))
}

/// The optional text under `key`.
fn optional_text_under(entries: &Vec<(Vec<u8>, Bencode)>, key: &str) -> (result:
    std::result::Result<Option<String>, BencodeError>)
    ensures
        match optional(
            entry_map(entries_view(entries@)),
            key@,
            |v: BencodeView| as_text(v),
        ) {
            Ok(text) => result matches Ok(found) && optional_text(found) == text,
            Err(fault) => result matches Err(error) && error@ == fault,
        },
{
    match lookup(entries, key) {
        None => Ok(None),
        Some(value) => match read_text(value) {
            Some(text) => Ok(Some(text)),
            None => invalid(key),
        },
    }
}

/// Reads an info dictionary.
pub fn read_info(value: &Bencode) -> (result: std::result::Result<Info, BencodeError>)
    ensures
        reading(result) == info_of(value.view()),
{
    let entries = match read_dict(value) {
        Some(entries) => entries,
        None => return Err(BencodeError::NotADictionary),
    };
    let name: String = match optional_text_under(entries, "name") {
        Err(error) => return Err(error),
        Ok(None) => return missing("name"),
        Ok(Some(name)) => name,
    };
    let piece_length: u64 = match lookup(entries, "piece length") {
        None => return missing("piece length"),
        Some(found) => match read_u64(found) {
            None => return invalid("piece length"),
            Some(piece_length) => piece_length,
        },
    };
    let pieces: Vec<u8> = match lookup(entries, "pieces") {
        None => return missing("pieces"),
        Some(found) => match read_bytes(found) {
            None => return invalid("pieces"),
            Some(pieces) => pieces,
        },
    };
    let length: Option<u64> = match lookup(entries, "length") {
        None => None,
        Some(found) => match read_u64(found) {
            None => return invalid("length"),
            Some(length) => Some(length),
        },
    };
    let files: Option<Vec<FileEntry>> = match lookup(entries, "files") {
        None => None,
        Some(found) => match read_files(found) {
            None => return invalid("files"),
            Some(files) => Some(files),
        },
    };
    let private: Option<u8> = match lookup(entries, "private") {
        None => None,
        Some(found) => match read_u8(found) {
            None => return invalid("private"),
            Some(private) => Some(private),
        },
    };
    Ok(Info { name, piece_length, pieces, length, files, private })
}

/// Reads a torrent, without the info hash.
pub fn read_metainfo(value: &Bencode) -> (result: std::result::Result<Metainfo, BencodeError>)
    ensures
        reading(result) == metainfo_of(value.view()),
{
    let entries = match read_dict(value) {
        Some(entries) => entries,
        None => return Err(BencodeError::NotADictionary),
    };
    let announce: Option<String> = match optional_text_under(entries, "announce") {
        Err(error) => return Err(error),
        Ok(announce) => announce,
    };
    let announce_list: Option<Vec<Vec<String>>> = match lookup(entries, "announce-list") {
        None => None,
        Some(found) => match read_tiers(found) {
            None => return invalid("announce-list"),
            Some(tiers) => Some(tiers),
        },
    };
    let info: Info = match lookup(entries, "info") {
        None => return missing("info"),
        Some(found) => match read_info(found) {
            Err(error) => return Err(error),
            Ok(info) => info,
        },
    };
    let comment: Option<String> = match optional_text_under(entries, "comment") {
        Err(error) => return Err(error),
        Ok(comment) => comment,
    };
    let created_by: Option<String> = match optional_text_under(entries, "created by") {
        Err(error) => return Err(error),
        Ok(created_by) => created_by,
    };
    let creation_date: Option<i64> = match lookup(entries, "creation date") {
        None => None,
        Some(found) => match read_i64(found) {
            None => return invalid("creation date"),
            Some(date) => Some(date),
        },
    };
    let encoding: Option<String> = match optional_text_under(entries, "encoding") {
        Err(error) => return Err(error),
        Ok(encoding) => encoding,
    };
    Ok(
        Metainfo {
            announce,
            announce_list,
            info,
            comment,
            created_by,
            creation_date,
            encoding,
            raw_info_hash: None,
        },
    )
}

} // verus!
