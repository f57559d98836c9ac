//! Reading torrents: what is read is what was written.

use vstd::prelude::*;
use vstd::utf8::{
    decode_utf8_encode_utf8, encode_utf8, encode_utf8_decode_utf8, encode_utf8_valid_utf8,
    valid_utf8,
};
use crate::bencode::{Bencode, BencodeView};
use crate::decode::{
    as_all, as_bytes, as_text, as_texts, as_tiers, as_u8, file_of, files_of, info_of, metainfo_of,
    read_info, read_metainfo, Entries,
};
use crate::error::{BencodeError, Result};
use crate::metainfo::{FileEntryView, Info, InfoView, Metainfo, MetainfoView};

verus! {

/// Whether a dictionary has `value` under the text `key`.
pub open spec fn has_entry(map: Entries, key: Seq<char>, value: BencodeView) -> bool {
    map.dom().contains(encode_utf8(key)) && map[encode_utf8(key)] == value
}

/// Whether a dictionary has nothing under the text `key`.
pub open spec fn lacks(map: Entries, key: Seq<char>) -> bool {
    !map.dom().contains(encode_utf8(key))
}

/// A text as a value: the byte string of its UTF-8 form.
pub open spec fn text_value(text: Seq<char>) -> BencodeView {
    BencodeView::Str(encode_utf8(text))
}

/// Whether all the keys of a dictionary are text.
pub open spec fn keys_are_text(map: Entries) -> bool {
    forall|key: Seq<u8>| map.dom().contains(key) ==> #[trigger] valid_utf8(key)
}

/// Whether a dictionary writes an optional text under `key`.
pub open spec fn writes_text(map: Entries, key: Seq<char>, text: Option<Seq<char>>) -> bool {
    match text {
        Some(text) => has_entry(map, key, text_value(text)),
        None => lacks(map, key),
    }
}

/// Whether a dictionary writes an optional number under `key`.
pub open spec fn writes_number(map: Entries, key: Seq<char>, number: Option<int>) -> bool {
    match number {
        Some(number) => !lacks(map, key) && (map[encode_utf8(key)] matches BencodeView::Int(n) && n
            == number),
        None => lacks(map, key),
    }
}

/// Whether a value writes a list of texts.
pub open spec fn is_texts(value: BencodeView, texts: Seq<Seq<char>>) -> bool {
    value matches BencodeView::List(items) && items.len() == texts.len() && forall|i: int|
        0 <= i < texts.len() ==> #[trigger] items[i] == text_value(texts[i])
}

/// Whether a value writes bytes: as a byte string, or as a list of numbers.
pub open spec fn is_bytes(value: BencodeView, bytes: Seq<u8>) -> bool {
    match value {
        BencodeView::Str(found) => found == bytes,
        BencodeView::List(items) => items.len() == bytes.len() && forall|i: int|
            0 <= i < bytes.len() ==> (#[trigger] items[i] matches BencodeView::Int(n) && n
                == bytes[i]),
        _ => false,
    }
}

/// Whether a value writes an entry of a file list, with or without further keys.
pub open spec fn is_file(value: BencodeView, file: FileEntryView) -> bool {
    value matches BencodeView::Dict(map) && {
        &&& keys_are_text(map)
        &&& writes_number(map, "length"@, Some(file.length as int))
        &&& !lacks(map, "path"@)
        &&& is_texts(map[encode_utf8("path"@)], file.path)
        &&& writes_text(map, "md5sum"@, file.md5sum)
    }
}

/// Whether a value writes an info dictionary, with or without further keys.
pub open spec fn is_info(value: BencodeView, info: InfoView) -> bool {
    value matches BencodeView::Dict(map) && {
        &&& keys_are_text(map)
        &&& has_entry(map, "name"@, text_value(info.name))
        &&& writes_number(map, "piece length"@, Some(info.piece_length as int))
        &&& !lacks(map, "pieces"@)
        &&& is_bytes(map[encode_utf8("pieces"@)], info.pieces)
        &&& writes_number(
            map,
            "length"@,
            match info.length {
                Some(length) => Some(length as int),
                None => None,
            },
        )
        &&& writes_number(
            map,
            "private"@,
            match info.private {
                Some(private) => Some(private as int),
                None => None,
            },
        )
        &&& match info.files {
            Some(files) => {
                &&& !lacks(map, "files"@)
                &&& map[encode_utf8("files"@)] matches BencodeView::List(items)
                &&& items.len() == files.len()
                &&& forall|i: int| 0 <= i < files.len() ==> is_file(#[trigger] items[i], files[i])
            },
            None => lacks(map, "files"@),
        }
    }
}

/// Whether a value writes a torrent, with or without further keys.
pub open spec fn is_torrent(value: BencodeView, meta: MetainfoView) -> bool {
    value matches BencodeView::Dict(map) && {
        &&& keys_are_text(map)
        &&& writes_text(map, "announce"@, meta.announce)
        &&& match meta.announce_list {
            Some(tiers) => {
                &&& !lacks(map, "announce-list"@)
                &&& map[encode_utf8("announce-list"@)] matches BencodeView::List(items)
                &&& items.len() == tiers.len()
                &&& forall|i: int| 0 <= i < tiers.len() ==> is_texts(#[trigger] items[i], tiers[i])
            },
            None => lacks(map, "announce-list"@),
        }
        &&& !lacks(map, "info"@)
        &&& is_info(map[encode_utf8("info"@)], meta.info)
        &&& writes_text(map, "comment"@, meta.comment)
        &&& writes_text(map, "created by"@, meta.created_by)
        &&& writes_number(
            map,
            "creation date"@,
            match meta.creation_date {
                Some(date) => Some(date as int),
                None => None,
            },
        )
        &&& writes_text(map, "encoding"@, meta.encoding)
    }
}

pub(crate) proof fn lemma_text(value: BencodeView, text: Seq<char>)
    ensures
        value == text_value(text) <==> as_text(value) == Some(text),
{
    encode_utf8_valid_utf8(text);
    encode_utf8_decode_utf8(text);
    match value {
        BencodeView::Str(bytes) => if valid_utf8(bytes) {
            decode_utf8_encode_utf8(bytes);
        },
        _ => {},
    }
}

pub(crate) proof fn lemma_texts(value: BencodeView, texts: Seq<Seq<char>>)
    ensures
        is_texts(value, texts) <==> as_texts(value) == Some(texts),
{
    match value {
        BencodeView::List(items) => {
            let read = |item: BencodeView| as_text(item);
            if is_texts(value, texts) {
                assert forall|i: int| 0 <= i < items.len() implies read(#[trigger] items[i]) == Some(
                    texts[i],
                ) by {
                    lemma_text(items[i], texts[i]);
                }
                assert(as_all(items, read)->0 =~= texts);
            }
            if as_texts(value) == Some(texts) {
                assert forall|i: int| 0 <= i < texts.len() implies #[trigger] items[i]
                    == text_value(texts[i]) by {
                    assert(read(items[i]) is Some);
                    lemma_text(items[i], texts[i]);
                }
            }
        },
        _ => {},
    }
}

proof fn lemma_tiers(value: BencodeView, tiers: Seq<Seq<Seq<char>>>)
    ensures
        (value matches BencodeView::List(items) && items.len() == tiers.len() && forall|i: int|
            0 <= i < tiers.len() ==> is_texts(#[trigger] items[i], tiers[i])) <==> as_tiers(value)
            == Some(tiers),
{
    match value {
        BencodeView::List(items) => {
            let read = |item: BencodeView| as_texts(item);
            if items.len() == tiers.len() && forall|i: int|
                0 <= i < tiers.len() ==> is_texts(#[trigger] items[i], tiers[i]) {
                assert forall|i: int| 0 <= i < items.len() implies read(#[trigger] items[i]) == Some(
                    tiers[i],
                ) by {
                    lemma_texts(items[i], tiers[i]);
                }
                assert(as_all(items, read)->0 =~= tiers);
            }
            if as_tiers(value) == Some(tiers) {
                assert forall|i: int| 0 <= i < tiers.len() implies is_texts(
                    #[trigger] items[i],
                    tiers[i],
                ) by {
                    assert(read(items[i]) is Some);
                    lemma_texts(items[i], tiers[i]);
                }
            }
        },
        _ => {},
    }
}

proof fn lemma_bytes(value: BencodeView, bytes: Seq<u8>)
    ensures
        is_bytes(value, bytes) <==> as_bytes(value) == Some(bytes),
{
    match value {
        BencodeView::List(items) => {
            let read = |item: BencodeView| as_u8(item);
            if is_bytes(value, bytes) {
                assert forall|i: int| 0 <= i < items.len() implies read(#[trigger] items[i]) == Some(
                    bytes[i],
                ) by {}
                assert(as_all(items, read)->0 =~= bytes);
            }
            if as_bytes(value) == Some(bytes) {
                assert forall|i: int| 0 <= i < bytes.len() implies (
                #[trigger] items[i] matches BencodeView::Int(n) && n == bytes[i]) by {
                    assert(read(items[i]) is Some);
                }
            }
        },
        _ => {},
    }
}

proof fn lemma_file(value: BencodeView, file: FileEntryView)
    ensures
        is_file(value, file) <==> file_of(value) == Some(file),
{
    match value {
        BencodeView::Dict(map) => {
            lemma_texts(map[encode_utf8("path"@)], file.path);
            match file.md5sum {
                Some(md5sum) => lemma_text(map[encode_utf8("md5sum"@)], md5sum),
                None => {},
            }
            if file_of(value) == Some(file) {
                let n = map[encode_utf8("length"@)]->Int_0;
                assert(has_entry(map, "length"@, BencodeView::Int(n)));
            }
        },
        _ => {},
    }
}

proof fn lemma_files(value: BencodeView, files: Seq<FileEntryView>)
    ensures
        (value matches BencodeView::List(items) && items.len() == files.len() && forall|i: int|
            0 <= i < files.len() ==> is_file(#[trigger] items[i], files[i])) <==> files_of(value)
            == Some(files),
{
    match value {
        BencodeView::List(items) => {
            let read = |item: BencodeView| file_of(item);
            if items.len() == files.len() && forall|i: int|
                0 <= i < files.len() ==> is_file(#[trigger] items[i], files[i]) {
                assert forall|i: int| 0 <= i < items.len() implies read(#[trigger] items[i]) == Some(
                    files[i],
                ) by {
                    lemma_file(items[i], files[i]);
                }
                assert(as_all(items, read)->0 =~= files);
            }
            if files_of(value) == Some(files) {
                assert forall|i: int| 0 <= i < files.len() implies is_file(
                    #[trigger] items[i],
                    files[i],
                ) by {
                    assert(read(items[i]) is Some);
                    lemma_file(items[i], files[i]);
                }
            }
        },
        _ => {},
    }
}

pub(crate) proof fn lemma_info(value: BencodeView, info: InfoView)
    ensures
        is_info(value, info) <==> info_of(value) == Ok::<
            InfoView,
            crate::error::BencodeFault,
        >(info),
{
    match value {
        BencodeView::Dict(map) => {
            lemma_text(map[encode_utf8("name"@)], info.name);
            lemma_bytes(map[encode_utf8("pieces"@)], info.pieces);
            match info.files {
                Some(files) => lemma_files(map[encode_utf8("files"@)], files),
                None => {},
            }
            if info_of(value) is Ok {
                let n = map[encode_utf8("piece length"@)]->Int_0;
                assert(has_entry(map, "piece length"@, BencodeView::Int(n)));
                if !lacks(map, "length"@) {
                    let n = map[encode_utf8("length"@)]->Int_0;
                    assert(has_entry(map, "length"@, BencodeView::Int(n)));
                }
                if !lacks(map, "private"@) {
                    let n = map[encode_utf8("private"@)]->Int_0;
                    assert(has_entry(map, "private"@, BencodeView::Int(n)));
                }
            }
        },
        _ => {},
    }
}

pub(crate) proof fn lemma_torrent(value: BencodeView, meta: MetainfoView)
    requires
        meta.raw_info_hash is None,
    ensures
        is_torrent(value, meta) <==> metainfo_of(value) == Ok::<
            MetainfoView,
            crate::error::BencodeFault,
        >(meta),
{
    match value {
        BencodeView::Dict(map) => {
            lemma_info(map[encode_utf8("info"@)], meta.info);
            match meta.announce {
                Some(text) => lemma_text(map[encode_utf8("announce"@)], text),
                None => {},
            }
            match meta.announce_list {
                Some(tiers) => lemma_tiers(map[encode_utf8("announce-list"@)], tiers),
                None => {},
            }
            match meta.comment {
                Some(text) => lemma_text(map[encode_utf8("comment"@)], text),
                None => {},
            }
            match meta.created_by {
                Some(text) => lemma_text(map[encode_utf8("created by"@)], text),
                None => {},
            }
            match meta.encoding {
                Some(text) => lemma_text(map[encode_utf8("encoding"@)], text),
                None => {},
            }
            if metainfo_of(value) is Ok && !lacks(map, "creation date"@) {
                let n = map[encode_utf8("creation date"@)]->Int_0;
                assert(has_entry(map, "creation date"@, BencodeView::Int(n)));
            }
        },
        _ => {},
    }
}

/// An info dictionary is read as what it writes, and nothing is read that it does not write:
/// every number, text, digest and file comes out as it stands there, keys that are not known
/// matter to nothing, and what writes no info dictionary is refused.
pub proof fn law_info_is_read_as_written(
    value: &Bencode,
    result: std::result::Result<Info, BencodeError>,
    info: InfoView,
)
    requires
        call_ensures(read_info, (value,), result),
    ensures
        is_info(value.view(), info) <==> (result matches Ok(found) && found@ == info),
        result matches Ok(found) ==> is_info(value.view(), found@),
{
    lemma_info(value.view(), info);
    match result {
        Ok(found) => lemma_info(value.view(), found@),
        Err(_) => {},
    }
}

/// A torrent is read as what it writes, and nothing is read that it does not write.
pub proof fn law_torrent_is_read_as_written(
    value: &Bencode,
    result: std::result::Result<Metainfo, BencodeError>,
    meta: MetainfoView,
)
    requires
        call_ensures(read_metainfo, (value,), result),
        meta.raw_info_hash is None,
    ensures
        is_torrent(value.view(), meta) <==> (result matches Ok(found) && found@ == meta),
        result matches Ok(found) ==> is_torrent(value.view(), found@),
{
    lemma_torrent(value.view(), meta);
    match result {
        Ok(found) => lemma_torrent(value.view(), found@),
        Err(_) => {},
    }
}

} // verus!
