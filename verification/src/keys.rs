//! How the keys of a torrent's dictionaries are written.
//!
//! A key that stands twice, and one that is no byte string, show only in the bytes.

use vstd::prelude::*;
use vstd::utf8::encode_utf8;
use vstd::slice::slice_subrange;
use crate::bencode::{same_bytes, DICT, END, LIST};
use crate::error::{BencodeError, BencodeFault};
use crate::span::{byte_string_at, read_byte_string, skip_value, value_end};

verus! {

/// The keys of a dictionary whose next key is at `at`, each with where its value begins, as far
/// as the bytes can be walked.
pub open spec fn dict_entries(buf: Seq<u8>, at: int) -> Seq<(Seq<u8>, int)>
    decreases buf.len() - at,
{
    if at < 0 || at >= buf.len() || buf[at] == END {
        Seq::empty()
    } else {
        match byte_string_at(buf, at) {
            Err(_) => Seq::empty(),
            Ok((start, end)) => match value_end(buf, end) {
                Err(_) => Seq::empty(),
                Ok(next) => if at < next <= buf.len() {
                    seq![(buf.subrange(start, end), end)] + dict_entries(buf, next)
                } else {
                    Seq::empty()
                },
            },
        }
    }
}

/// Where the walk over the keys of a dictionary ends whose next key is at `at`: at what closes the
/// dictionary, at a key that is no byte string or has no value, or where the bytes end.
pub open spec fn keys_stop(buf: Seq<u8>, at: int) -> int
    decreases buf.len() - at,
{
    if at < 0 || at >= buf.len() || buf[at] == END {
        at
    } else {
        match byte_string_at(buf, at) {
            Err(_) => at,
            Ok((_, end)) => match value_end(buf, end) {
                Err(_) => at,
                Ok(next) => if at < next <= buf.len() {
                    keys_stop(buf, next)
                } else {
                    at
                },
            },
        }
    }
}

/// Whether the dictionary whose first key is at `at` has a key that is no byte string.
pub open spec fn has_stray_key(buf: Seq<u8>, at: int) -> bool {
    !(0 <= keys_stop(buf, at) < buf.len() && buf[keys_stop(buf, at)] == END)
}

/// Where the items of a list begin whose next item is at `at`, as far as the bytes can be
/// walked.
pub open spec fn list_items(buf: Seq<u8>, at: int) -> Seq<int>
    decreases buf.len() - at,
{
    if at < 0 || at >= buf.len() || buf[at] == END {
        Seq::empty()
    } else {
        match value_end(buf, at) {
            Err(_) => Seq::empty(),
            Ok(next) => if at < next <= buf.len() {
                seq![at] + list_items(buf, next)
            } else {
                Seq::empty()
            },
        }
    }
}

/// How often a key stands among the entries.
pub open spec fn occurrences(entries: Seq<(Seq<u8>, int)>, key: Seq<u8>) -> nat
    decreases entries.len(),
{
    if entries.len() == 0 {
        0
    } else {
        occurrences(entries.drop_last(), key) + if entries.last().0 == key {
            1nat
        } else {
            0nat
        }
    }
}

/// The first of `keys` that stands more than once.
pub open spec fn first_repeated(entries: Seq<(Seq<u8>, int)>, keys: Seq<Seq<char>>) -> Option<
    Seq<char>,
>
    decreases keys.len(),
{
    if keys.len() == 0 {
        None
    } else if occurrences(entries, encode_utf8(keys[0])) > 1 {
        Some(keys[0])
    } else {
        first_repeated(entries, keys.skip(1))
    }
}

/// Where the value of the first entry with `key` begins.
pub open spec fn first_value(entries: Seq<(Seq<u8>, int)>, key: Seq<u8>) -> Option<int>
    decreases entries.len(),
{
    if entries.len() == 0 {
        None
    } else if entries[0].0 == key {
        Some(entries[0].1)
    } else {
        first_value(entries.skip(1), key)
    }
}

/// The keys of a torrent that are read.
pub open spec fn torrent_keys() -> Seq<Seq<char>> {
    seq![
        "announce"@,
        "announce-list"@,
        "info"@,
        "comment"@,
        "created by"@,
        "creation date"@,
        "encoding"@,
    ]
}

/// The keys of an info dictionary that are read.
pub open spec fn info_keys() -> Seq<Seq<char>> {
    seq!["name"@, "piece length"@, "pieces"@, "length"@, "files"@, "private"@]
}

/// The keys of a file entry that are read.
pub open spec fn file_keys() -> Seq<Seq<char>> {
    seq!["length"@, "path"@, "md5sum"@]
}

/// What is wrong with the keys of the value at `at`, where that is a dictionary: one is no byte
/// string, or one of `keys` stands more than once.
pub open spec fn key_fault_at(buf: Seq<u8>, at: int, keys: Seq<Seq<char>>) -> Option<
    BencodeFault,
> {
    if 0 <= at < buf.len() && buf[at] == DICT {
        if has_stray_key(buf, at + 1) {
            Some(BencodeFault::NotADictionary)
        } else {
            match first_repeated(dict_entries(buf, at + 1), keys) {
                Some(key) => Some(BencodeFault::DuplicateField(key)),
                None => None,
            }
        }
    } else {
        None
    }
}

/// What is wrong with the keys of the file entries at `items`.
pub open spec fn key_fault_in_files(buf: Seq<u8>, items: Seq<int>) -> Option<BencodeFault>
    decreases items.len(),
{
    if items.len() == 0 {
        None
    } else {
        match key_fault_at(buf, items[0], file_keys()) {
            Some(fault) => Some(fault),
            None => key_fault_in_files(buf, items.skip(1)),
        }
    }
}

/// What is wrong with the keys in the file list at `at`.
pub open spec fn key_fault_in_file_list(buf: Seq<u8>, at: int) -> Option<BencodeFault> {
    if 0 <= at < buf.len() && buf[at] == LIST {
        key_fault_in_files(buf, list_items(buf, at + 1))
    } else {
        None
    }
}

/// What is wrong with the keys of the info dictionary at `at`, or in its file list.
pub open spec fn key_fault_in_info(buf: Seq<u8>, at: int) -> Option<BencodeFault> {
    match key_fault_at(buf, at, info_keys()) {
        Some(fault) => Some(fault),
        None => if 0 <= at < buf.len() && buf[at] == DICT {
            match first_value(dict_entries(buf, at + 1), encode_utf8("files"@)) {
                Some(files) => key_fault_in_file_list(buf, files),
                None => None,
            }
        } else {
            None
        },
    }
}

/// What is wrong with the keys of the dictionaries that are read: the torrent itself, its info
/// dictionary and the entries of its file list.
pub open spec fn key_fault(buf: Seq<u8>) -> Option<BencodeFault> {
    match key_fault_at(buf, 0, torrent_keys()) {
        Some(fault) => Some(fault),
        None => if buf.len() > 0 && buf[0] == DICT {
            match first_value(dict_entries(buf, 1), encode_utf8("info"@)) {
                Some(info) => key_fault_in_info(buf, info),
                None => None,
            }
        } else {
            None
        },
    }
}

/// A key's span, and where its value begins.
pub type KeySpan = (usize, usize, usize);

/// The keys at `spans`, each with where its value begins.
pub open spec fn span_entries(buf: Seq<u8>, spans: Seq<KeySpan>) -> Seq<(Seq<u8>, int)> {
    Seq::new(
        spans.len(),
        |i: int| (buf.subrange(spans[i].0 as int, spans[i].1 as int), spans[i].2 as int),
    )
}

/// Whether `spans` lie in the bytes.
pub open spec fn spans_fit(buf: Seq<u8>, spans: Seq<KeySpan>) -> bool {
    forall|i: int|
        0 <= i < spans.len() ==> (#[trigger] spans[i]).0 <= spans[i].1 <= buf.len() && spans[i].2
            <= buf.len()
}

/// The keys of a dictionary whose next key is at `at`, and where the walk over them ends.
pub fn key_spans(buf: &[u8], at: usize) -> (walk: (Vec<KeySpan>, usize))
    requires
        at <= buf@.len(),
    ensures
        spans_fit(buf@, walk.0@),
        span_entries(buf@, walk.0@) == dict_entries(buf@, at as int),
        walk.1 == keys_stop(buf@, at as int),
{
    let mut spans: Vec<KeySpan> = Vec::new();
    let mut i: usize = at;
    assert(span_entries(buf@, spans@) + dict_entries(buf@, i as int) =~= dict_entries(
        buf@,
        at as int,
    ));
    while i < buf.len() && buf[i] != END
        invariant_except_break
            i <= buf@.len(),
            spans_fit(buf@, spans@),
            keys_stop(buf@, i as int) == keys_stop(buf@, at as int),
            span_entries(buf@, spans@) + dict_entries(buf@, i as int) == dict_entries(
                buf@,
                at as int,
            ),
        ensures
            spans_fit(buf@, spans@),
            i == keys_stop(buf@, at as int),
            span_entries(buf@, spans@) == dict_entries(buf@, at as int),
        decreases buf@.len() - i,
    {
        let ghost before = span_entries(buf@, spans@);
        let (start, end): (usize, usize) = match read_byte_string(buf, i) {
            Err(_) => {
                assert(before + dict_entries(buf@, i as int) =~= before);
                break;
            },
            Ok(span) => span,
        };
        let next: usize = match skip_value(buf, end) {
            Err(_) => {
                assert(before + dict_entries(buf@, i as int) =~= before);
                break;
            },
            Ok(next) => next,
        };
        spans.push((start, end, end));
        proof {
            let entry = (buf@.subrange(start as int, end as int), end as int);
            assert(span_entries(buf@, spans@) =~= before.push(entry));
            assert(before + (seq![entry] + dict_entries(buf@, next as int)) =~= before.push(entry)
                + dict_entries(buf@, next as int));
        }
        i = next;
        assert(i >= buf@.len() || buf@[i as int] == END ==> span_entries(buf@, spans@)
            + dict_entries(buf@, i as int) =~= span_entries(buf@, spans@));
    }
    (spans, i)
}

/// Where the items of a list begin whose next item is at `at`.
pub fn item_starts(buf: &[u8], at: usize) -> (starts: Vec<usize>)
    requires
        at <= buf@.len(),
    ensures
        starts@.len() == list_items(buf@, at as int).len(),
        forall|i: int|
            0 <= i < starts@.len() ==> #[trigger] starts@[i] == list_items(buf@, at as int)[i]
                && starts@[i] <= buf@.len(),
{
    let mut starts: Vec<usize> = Vec::new();
    let mut i: usize = at;
    let ghost all = list_items(buf@, at as int);
    let ghost mut done: Seq<int> = Seq::empty();
    assert(done + list_items(buf@, i as int) =~= all);
    while i < buf.len() && buf[i] != END
        invariant_except_break
            i <= buf@.len(),
            done + list_items(buf@, i as int) == all,
            done.len() == starts@.len(),
            forall|k: int|
                0 <= k < starts@.len() ==> #[trigger] starts@[k] == done[k] && starts@[k]
                    <= buf@.len(),
        ensures
            done == all,
            done.len() == starts@.len(),
            forall|k: int|
                0 <= k < starts@.len() ==> #[trigger] starts@[k] == done[k] && starts@[k]
                    <= buf@.len(),
        decreases buf@.len() - i,
    {
        let next: usize = match skip_value(buf, i) {
            Err(_) => {
                assert(done + list_items(buf@, i as int) =~= done);
                break;
            },
            Ok(next) => next,
        };
        starts.push(i);
        proof {
            assert(done + (seq![i as int] + list_items(buf@, next as int)) =~= done.push(i as int)
                + list_items(buf@, next as int));
            done = done.push(i as int);
        }
        i = next;
        assert(i >= buf@.len() || buf@[i as int] == END ==> done + list_items(buf@, i as int)
            =~= done);
    }
    starts
}

/// Whether `key` stands more than once.
fn stands_twice(buf: &[u8], spans: &Vec<KeySpan>, key: &str) -> (twice: bool)
    requires
        spans_fit(buf@, spans@),
    ensures
        twice == (occurrences(span_entries(buf@, spans@), encode_utf8(key@)) > 1),
{
    let ghost entries = span_entries(buf@, spans@);
    let mut count: usize = 0;
    let mut i: usize = 0;
    assert(entries.take(0) =~= Seq::<(Seq<u8>, int)>::empty());
    while i < spans.len()
        invariant
            i <= spans@.len(),
            count <= i,
            spans_fit(buf@, spans@),
            entries == span_entries(buf@, spans@),
            count == occurrences(entries.take(i as int), encode_utf8(key@)),
        decreases spans@.len() - i,
    {
        let (start, end, _): KeySpan = spans[i];
        assert(entries.take(i + 1).drop_last() =~= entries.take(i as int));
        if same_bytes(slice_subrange(buf, start, end), key.as_bytes()) {
            count += 1;
        }
        i += 1;
    }
    assert(entries.take(i as int) =~= entries);
    count > 1
}

/// Where the value of the first entry with `key` begins.
fn value_start(buf: &[u8], spans: &Vec<KeySpan>, key: &str) -> (at: Option<usize>)
    requires
        spans_fit(buf@, spans@),
    ensures
        match at {
            Some(i) => i <= buf@.len() && first_value(
                span_entries(buf@, spans@),
                encode_utf8(key@),
            ) == Some(i as int),
            None => first_value(span_entries(buf@, spans@), encode_utf8(key@)) is None,
        },
{
    let ghost entries = span_entries(buf@, spans@);
    let mut i: usize = 0;
    assert(entries.skip(0) =~= entries);
    while i < spans.len()
        invariant
            i <= spans@.len(),
            spans_fit(buf@, spans@),
            entries == span_entries(buf@, spans@),
            first_value(entries, encode_utf8(key@)) == first_value(
                entries.skip(i as int),
                encode_utf8(key@),
            ),
        decreases spans@.len() - i,
    {
        let (start, end, value): KeySpan = spans[i];
        assert(entries.skip(i as int)[0] == entries[i as int]);
        assert(entries.skip(i as int).skip(1) =~= entries.skip(i + 1));
        if same_bytes(slice_subrange(buf, start, end), key.as_bytes()) {
            return Some(value);
        }
        i += 1;
    }
    None
}

/// The texts of `keys`.
pub open spec fn key_texts(keys: Seq<&str>) -> Seq<Seq<char>> {
    Seq::new(keys.len(), |i: int| keys[i]@)
}

spec fn fault_of(found: Option<BencodeError>) -> Option<BencodeFault> {
    match found {
        Some(error) => Some(error@),
        None => None,
    }
}

/// The keys of a torrent that are read.
pub fn list_torrent_keys() -> (keys: [&'static str; 7])
    ensures
        key_texts(keys@) == torrent_keys(),
{
    let keys: [&'static str; 7] = [
        "announce",
        "announce-list",
        "info",
        "comment",
        "created by",
        "creation date",
        "encoding",
    ];
    assert(key_texts(keys@) =~= torrent_keys());
    keys
}

/// The keys of an info dictionary that are read.
pub fn list_info_keys() -> (keys: [&'static str; 6])
    ensures
        key_texts(keys@) == info_keys(),
{
    let keys: [&'static str; 6] = ["name", "piece length", "pieces", "length", "files", "private"];
    assert(key_texts(keys@) =~= info_keys());
    keys
}

/// The keys of a file entry that are read.
pub fn list_file_keys() -> (keys: [&'static str; 3])
    ensures
        key_texts(keys@) == file_keys(),
{
    let keys: [&'static str; 3] = ["length", "path", "md5sum"];
    assert(key_texts(keys@) =~= file_keys());
    keys
}

/// What is wrong with the keys of the value at `at`.
fn find_key_fault_at(buf: &[u8], at: usize, keys: &[&str]) -> (found: Option<BencodeError>)
    requires
        at <= buf@.len(),
    ensures
        fault_of(found) == key_fault_at(buf@, at as int, key_texts(keys@)),
{
    if at >= buf.len() || buf[at] != DICT {
        return None;
    }
    let (spans, stop): (Vec<KeySpan>, usize) = key_spans(buf, at + 1);
    if stop >= buf.len() || buf[stop] != END {
        return Some(BencodeError::NotADictionary);
    }
    let ghost entries = span_entries(buf@, spans@);
    let ghost all = key_texts(keys@);
    let mut i: usize = 0;
    assert(all.skip(0) =~= all);
    while i < keys.len()
        invariant
            i <= keys@.len(),
            spans_fit(buf@, spans@),
            entries == span_entries(buf@, spans@),
            all == key_texts(keys@),
            key_fault_at(buf@, at as int, all) == (match first_repeated(
                entries,
                all.skip(i as int),
            ) {
                Some(key) => Some(BencodeFault::DuplicateField(key)),
                None => None,
            }),
        decreases keys@.len() - i,
    {
        assert(all.skip(i as int)[0] == keys@[i as int]@);
        assert(all.skip(i as int).skip(1) =~= all.skip(i + 1));
        if stands_twice(buf, &spans, keys[i]) {
            return Some(BencodeError::DuplicateField(keys[i].to_owned()));
        }
        i += 1;
    }
    None
}

/// What is wrong with the keys of the dictionaries that are read.
pub fn find_key_fault(buf: &[u8]) -> (found: Option<BencodeError>)
    ensures
        match found {
            Some(error) => key_fault(buf@) == Some(error@),
            None => key_fault(buf@) is None,
        },
{
    match find_key_fault_at(buf, 0, list_torrent_keys().as_slice()) {
        Some(error) => return Some(error),
        None => {},
    }
    if buf.len() == 0 || buf[0] != DICT {
        return None;
    }
    let (spans, _): (Vec<KeySpan>, usize) = key_spans(buf, 1);
    match value_start(buf, &spans, "info") {
        None => None,
        Some(at) => find_key_fault_in_info(buf, at),
    }
}

fn find_key_fault_in_info(buf: &[u8], at: usize) -> (found: Option<BencodeError>)
    requires
        at <= buf@.len(),
    ensures
        fault_of(found) == key_fault_in_info(buf@, at as int),
{
    match find_key_fault_at(buf, at, list_info_keys().as_slice()) {
        Some(error) => return Some(error),
        None => {},
    }
    if at >= buf.len() || buf[at] != DICT {
        return None;
    }
    let (spans, _): (Vec<KeySpan>, usize) = key_spans(buf, at + 1);
    match value_start(buf, &spans, "files") {
        None => None,
        Some(files) => find_key_fault_in_file_list(buf, files),
    }
}

fn find_key_fault_in_file_list(buf: &[u8], at: usize) -> (found: Option<BencodeError>)
    requires
        at <= buf@.len(),
    ensures
        fault_of(found) == key_fault_in_file_list(buf@, at as int),
{
    if at >= buf.len() || buf[at] != LIST {
        return None;
    }
    let file: [&'static str; 3] = list_file_keys();
    let starts: Vec<usize> = item_starts(buf, at + 1);
    let ghost items = list_items(buf@, at + 1);
    let mut i: usize = 0;
    assert(items.skip(0) =~= items);
    while i < starts.len()
        invariant
            i <= starts@.len(),
            starts@.len() == items.len(),
            forall|k: int|
                0 <= k < starts@.len() ==> #[trigger] starts@[k] == items[k] && starts@[k]
                    <= buf@.len(),
            key_texts(file@) == file_keys(),
            key_fault_in_file_list(buf@, at as int) == key_fault_in_files(
                buf@,
                items.skip(i as int),
            ),
        decreases starts@.len() - i,
    {
        assert(items.skip(i as int)[0] == items[i as int]);
        assert(items.skip(i as int).skip(1) =~= items.skip(i + 1));
        match find_key_fault_at(buf, starts[i], file.as_slice()) {
            Some(error) => return Some(error),
            None => {},
        }
        i += 1;
    }
    None
}

} // verus!
