//! The parts of a torrent that are read.
//!
//! The values of keys that are not read are passed over, whatever they hold; only their bytes
//! count, for the info hash.

use vstd::prelude::*;
use vstd::slice::{slice_subrange, slice_to_vec};
use vstd::utf8::encode_utf8;
use crate::bencode::{
    bencode_parse, bencode_readable, entries_view, list_view, parse, same_bytes, skim, Bencode,
    BencodeView, DICT, LIST,
};
use crate::keyed::entry_map;
use crate::keys::{
    dict_entries, file_keys, info_keys, item_starts, key_spans, key_texts, list_file_keys,
    list_info_keys, list_items, list_torrent_keys, span_entries, spans_fit, torrent_keys, KeySpan,
};
use crate::span::{skip_value, value_end};

verus! {

/// What a value of a torrent holds.
#[derive(Debug, Clone, Copy, PartialEq, Eq, Structural)]
pub enum Level {
    /// The torrent itself.
    Torrent,
    /// Its info dictionary.
    Info,
    /// The file list of the info dictionary.
    Files,
    /// An entry of the file list.
    File,
}

impl Level {
    /// How many levels there can be below.
    pub open spec fn depth(self) -> nat {
        match self {
            Level::Torrent => 3,
            Level::Info => 2,
            Level::Files => 1,
            Level::File => 0,
        }
    }

    /// The keys that are read.
    pub open spec fn keys(self) -> Seq<Seq<char>> {
        match self {
            Level::Torrent => torrent_keys(),
            Level::Info => info_keys(),
            Level::Files => Seq::empty(),
            Level::File => file_keys(),
        }
    }
}

/// Whether `key` is one of `keys`.
pub open spec fn is_among(key: Seq<u8>, keys: Seq<Seq<char>>) -> bool {
    exists|i: int| 0 <= i < keys.len() && key == encode_utf8(#[trigger] keys[i])
}

/// The value at `at`, all of it.
pub open spec fn whole_value(buf: Seq<u8>, at: int) -> Option<BencodeView> {
    match value_end(buf, at) {
        Ok(end) => bencode_parse(buf.subrange(at, end)),
        Err(_) => None,
    }
}

/// The value under `key`, as far as it is read; an empty list stands for one that is not.
pub open spec fn part_value(buf: Seq<u8>, level: Level, key: Seq<u8>, at: int) -> Option<
    BencodeView,
>
    decreases level.depth(), 0int, 0int,
{
    if level == Level::Torrent && key == encode_utf8("info"@) {
        value_at(buf, Level::Info, at)
    } else if level == Level::Info && key == encode_utf8("files"@) {
        value_at(buf, Level::Files, at)
    } else if is_among(key, level.keys()) {
        whole_value(buf, at)
    } else {
        Some(BencodeView::List(Seq::empty()))
    }
}

/// Dictionary entries with their values, as far as they are read.
pub open spec fn part_values(buf: Seq<u8>, level: Level, entries: Seq<(Seq<u8>, int)>) -> Option<
    Seq<(Seq<u8>, BencodeView)>,
>
    decreases level.depth(), 1int, entries.len(),
{
    if entries.len() == 0 {
        Some(Seq::empty())
    } else {
        let (key, at) = entries.last();
        match (part_values(buf, level, entries.drop_last()), part_value(buf, level, key, at)) {
            (Some(front), Some(value)) => Some(front.push((key, value))),
            _ => None,
        }
    }
}

/// The entries of the file list that begin at `items`, as far as they are read.
pub open spec fn file_values(buf: Seq<u8>, items: Seq<int>) -> Option<Seq<BencodeView>>
    decreases Level::File.depth(), 3int, items.len(),
{
    if items.len() == 0 {
        Some(Seq::empty())
    } else {
        match (file_values(buf, items.drop_last()), value_at(buf, Level::File, items.last())) {
            (Some(front), Some(file)) => Some(front.push(file)),
            _ => None,
        }
    }
}

/// The value at `at`, as far as it is read: a dictionary with the values of its keys, the file
/// list with its entries, and anything else whole. `None` where a value that is read cannot be
/// parsed.
pub open spec fn value_at(buf: Seq<u8>, level: Level, at: int) -> Option<BencodeView>
    decreases level.depth(), 2int, 0int,
{
    if 0 <= at < buf.len() && buf[at] == LIST && level == Level::Files {
        match file_values(buf, list_items(buf, at + 1)) {
            Some(files) => Some(BencodeView::List(files)),
            None => None,
        }
    } else if 0 <= at < buf.len() && buf[at] == DICT && level != Level::Files {
        match part_values(buf, level, dict_entries(buf, at + 1)) {
            Some(parts) => Some(BencodeView::Dict(entry_map(parts))),
            None => None,
        }
    } else {
        whole_value(buf, at)
    }
}

/// The torrent at the front of `bytes`, as far as it is read; `None` where they are no bencode.
pub open spec fn torrent_outline(bytes: Seq<u8>) -> Option<BencodeView> {
    if bencode_readable(bytes) {
        value_at(bytes, Level::Torrent, 0)
    } else {
        None
    }
}

/// A value under a key that is not read is passed over, whatever it holds.
pub proof fn law_unread_values_are_passed_over(buf: Seq<u8>, level: Level, key: Seq<u8>, at: int)
    requires
        !is_among(key, level.keys()),
    ensures
        part_value(buf, level, key, at) == Some(BencodeView::List(Seq::empty())),
{
    assert(torrent_keys()[2] == "info"@);
    assert(info_keys()[4] == "files"@);
}

/// Whether a value was read as it should have been.
spec fn is_reading(
    result: std::result::Result<Bencode, String>,
    value: Option<BencodeView>,
) -> bool {
    match result {
        Ok(read) => value == Some(read.view()),
        Err(_) => value is None,
    }
}

/// Whether `key` is one of `keys`.
fn find_among(key: &[u8], keys: &[&str]) -> (found: bool)
    ensures
        found == is_among(key@, key_texts(keys@)),
{
    let mut i: usize = 0;
    while i < keys.len()
        invariant
            i <= keys@.len(),
            forall|k: int| 0 <= k < i ==> key@ != encode_utf8(#[trigger] key_texts(keys@)[k]),
        decreases keys@.len() - i,
    {
        if same_bytes(key, keys[i].as_bytes()) {
            assert(key@ == encode_utf8(key_texts(keys@)[i as int]));
            return true;
        }
        i += 1;
    }
    false
}

/// Whether the value under `key` is read.
fn is_read(level: Level, key: &[u8]) -> (found: bool)
    ensures
        found == is_among(key@, level.keys()),
{
    match level {
        Level::Torrent => find_among(key, list_torrent_keys().as_slice()),
        Level::Info => find_among(key, list_info_keys().as_slice()),
        Level::Files => false,
        Level::File => find_among(key, list_file_keys().as_slice()),
    }
}

/// The value at `at`, all of it.
fn read_whole(buf: &[u8], at: usize) -> (result: std::result::Result<Bencode, String>)
    ensures
        is_reading(result, whole_value(buf@, at as int)),
{
    match skip_value(buf, at) {
        Ok(end) => parse(slice_subrange(buf, at, end)),
        Err(_) => Err("a value does not end".to_owned()),
    }
}

/// The value under `key`, as far as it is read.
fn read_part(buf: &[u8], level: Level, key: &[u8], at: usize) -> (result: std::result::Result<
    Bencode,
    String,
>)
    ensures
        is_reading(result, part_value(buf@, level, key@, at as int)),
    decreases level.depth(), 0int,
{
    if level == Level::Torrent && same_bytes(key, "info".as_bytes()) {
        return read_at(buf, Level::Info, at);
    }
    if level == Level::Info && same_bytes(key, "files".as_bytes()) {
        return read_at(buf, Level::Files, at);
    }
    if is_read(level, key) {
        return read_whole(buf, at);
    }
    let unread: Vec<Bencode> = Vec::new();
    assert(list_view(unread@) =~= Seq::<BencodeView>::empty());
    Ok(Bencode::List(unread))
}

/// Where the first entries cannot be read, all of them cannot.
proof fn lemma_parts_prefix(buf: Seq<u8>, level: Level, entries: Seq<(Seq<u8>, int)>, n: int)
    requires
        0 <= n <= entries.len(),
        part_values(buf, level, entries.take(n)) is None,
    ensures
        part_values(buf, level, entries) is None,
    decreases entries.len(),
{
    if n < entries.len() {
        assert(entries.drop_last().take(n) =~= entries.take(n));
        lemma_parts_prefix(buf, level, entries.drop_last(), n);
    } else {
        assert(entries.take(n) =~= entries);
    }
}

proof fn lemma_files_prefix(buf: Seq<u8>, items: Seq<int>, n: int)
    requires
        0 <= n <= items.len(),
        file_values(buf, items.take(n)) is None,
    ensures
        file_values(buf, items) is None,
    decreases items.len(),
{
    if n < items.len() {
        assert(items.drop_last().take(n) =~= items.take(n));
        lemma_files_prefix(buf, items.drop_last(), n);
    } else {
        assert(items.take(n) =~= items);
    }
}

/// The value at `at`, as far as it is read.
fn read_at(buf: &[u8], level: Level, at: usize) -> (result: std::result::Result<Bencode, String>)
    ensures
        is_reading(result, value_at(buf@, level, at as int)),
    decreases level.depth(), 1int,
{
    if at < buf.len() && buf[at] == LIST && level == Level::Files {
        return read_files_at(buf, at);
    }
    if at >= buf.len() || buf[at] != DICT || level == Level::Files {
        return read_whole(buf, at);
    }
    let (spans, _): (Vec<KeySpan>, usize) = key_spans(buf, at + 1);
    let ghost entries = dict_entries(buf@, at + 1);
    let mut read: Vec<(Vec<u8>, Bencode)> = Vec::new();
    let mut i: usize = 0;
    assert(entries.take(0) =~= Seq::<(Seq<u8>, int)>::empty());
    assert(entries_view(read@) =~= Seq::<(Seq<u8>, BencodeView)>::empty());
    while i < spans.len()
        invariant
            at < buf@.len(),
            buf@[at as int] == DICT,
            level != Level::Files,
            i <= spans@.len(),
            spans_fit(buf@, spans@),
            entries == span_entries(buf@, spans@),
            entries == dict_entries(buf@, at + 1),
            part_values(buf@, level, entries.take(i as int)) == Some(entries_view(read@)),
        decreases spans@.len() - i,
    {
        let (start, end, value): KeySpan = spans[i];
        let key: &[u8] = slice_subrange(buf, start, end);
        let ghost before = read@;
        assert(entries[i as int] == (key@, value as int));
        assert(entries.take(i + 1).drop_last() =~= entries.take(i as int));
        assert(entries.take(i + 1).last() == entries[i as int]);
        match read_part(buf, level, key, value) {
            Ok(part) => {
                read.push((slice_to_vec(key), part));
                assert(read@.drop_last() =~= before);
            },
            Err(text) => {
                proof {
                    lemma_parts_prefix(buf@, level, entries, i + 1);
                }
                return Err(text);
            },
        }
        i += 1;
    }
    assert(entries.take(i as int) =~= entries);
    Ok(Bencode::Dict(read))
}

/// The file list at `at`, as far as it is read.
fn read_files_at(buf: &[u8], at: usize) -> (result: std::result::Result<Bencode, String>)
    requires
        at < buf@.len(),
        buf@[at as int] == LIST,
    ensures
        is_reading(result, value_at(buf@, Level::Files, at as int)),
    decreases Level::Files.depth(), 0int,
{
    assert(at < buf.len());
    let starts: Vec<usize> = item_starts(buf, at + 1);
    let ghost items = list_items(buf@, at + 1);
    let mut read: Vec<Bencode> = Vec::new();
    let mut i: usize = 0;
    assert(items.take(0) =~= Seq::<int>::empty());
    assert(list_view(read@) =~= Seq::<BencodeView>::empty());
    while i < starts.len()
        invariant
            at < buf@.len(),
            buf@[at as int] == LIST,
            i <= starts@.len(),
            items == list_items(buf@, at + 1),
            starts@.len() == items.len(),
            forall|k: int| 0 <= k < starts@.len() ==> #[trigger] starts@[k] == items[k],
            file_values(buf@, items.take(i as int)) == Some(list_view(read@)),
        decreases starts@.len() - i,
    {
        let ghost before = read@;
        assert(items.take(i + 1).drop_last() =~= items.take(i as int));
        assert(items.take(i + 1).last() == starts@[i as int]);
        match read_at(buf, Level::File, starts[i]) {
            Ok(file) => {
                read.push(file);
                assert(read@.drop_last() =~= before);
            },
            Err(text) => {
                proof {
                    lemma_files_prefix(buf@, items, i + 1);
                }
                return Err(text);
            },
        }
        i += 1;
    }
    assert(items.take(i as int) =~= items);
    Ok(Bencode::List(read))
}

/// Reads the torrent off the front of `bytes`, as far as it is read.
pub fn read_outline(bytes: &[u8]) -> (result: std::result::Result<Bencode, String>)
    ensures
        match result {
            Ok(value) => torrent_outline(bytes@) == Some(value.view()),
            Err(_) => torrent_outline(bytes@) is None,
        },
{
    match skim(bytes) {
        Ok(()) => read_at(bytes, Level::Torrent, 0),
        Err(text) => Err(text),
    }
}

} // verus!
