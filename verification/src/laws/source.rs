//! Torrents as bytes: what stands in them is what is read, wherever it stands.

use vstd::prelude::*;
use vstd::utf8::{encode_utf8, is_ascii_chars, is_ascii_chars_encode_utf8};
use crate::bencode::{
    bencode_parse, bencode_readable, encoded_bytes, Bencode, BencodeView, DICT, END, LIST,
};
use crate::digest::sha1_of;
use crate::error::{outcome, Result};
use crate::keyed::{distinct_keys, entry_map, lemma_entry_map_dom, lemma_entry_map_get};
use crate::keys::{
    dict_entries, file_keys, first_repeated, first_value, has_stray_key, info_keys, key_fault,
    key_fault_at, key_fault_in_files, list_items, occurrences, torrent_keys,
};
use crate::laws::reading::is_torrent;
use crate::metainfo::{Metainfo, MetainfoView};
use crate::outline::{
    file_values, is_among, part_value, part_values, read_outline, value_at, whole_value, Level,
};
use crate::span::{
    byte_string_at, dict_bytes, info_key, law_raw_info_is_exact, lemma_entry_groups,
    lemma_string_span, lemma_value_span, list_bytes, node_bytes, value_end, Node,
};

verus! {

/// Whether `node` stands in `buf` at `at`.
pub open spec fn stands_at(buf: Seq<u8>, at: int, node: Node) -> bool {
    &&& 0 <= at
    &&& at + node_bytes(node).len() <= buf.len()
    &&& buf.subrange(at, at + node_bytes(node).len()) == node_bytes(node)
}

/// Whether a list of keys with places is that of `entries`.
spec fn are_entries(
    buf: Seq<u8>,
    found: Seq<(Seq<u8>, int)>,
    entries: Seq<(Seq<u8>, Node)>,
) -> bool {
    &&& found.len() == entries.len()
    &&& forall|i: int|
        0 <= i < entries.len() ==> (#[trigger] found[i]).0 == entries[i].0 && stands_at(
            buf,
            found[i].1,
            entries[i].1,
        )
}

spec fn are_items(buf: Seq<u8>, found: Seq<int>, items: Seq<Node>) -> bool {
    &&& found.len() == items.len()
    &&& forall|i: int| 0 <= i < items.len() ==> stands_at(buf, #[trigger] found[i], items[i])
}

/// A value that stands somewhere ends where it was written to end.
proof fn lemma_end(buf: Seq<u8>, at: int, node: Node)
    requires
        buf.len() <= usize::MAX,
        stands_at(buf, at, node),
    ensures
        value_end(buf, at) == Ok::<int, Seq<char>>(at + node_bytes(node).len()),
        node_bytes(node).len() > 0,
        buf[at] != END,
{
    let before = buf.take(at);
    let after = buf.skip(at + node_bytes(node).len());
    assert(buf =~= before + node_bytes(node) + after);
    lemma_value_span(before, node, after);
}

proof fn lemma_entries(before: Seq<u8>, entries: Seq<(Seq<u8>, Node)>, after: Seq<u8>)
    requires
        before.len() + dict_bytes(entries).len() + 1 + after.len() <= usize::MAX,
    ensures
        ({
            let buf = before + dict_bytes(entries) + (seq![END] + after);
            &&& are_entries(buf, dict_entries(buf, before.len() as int), entries)
            &&& !has_stray_key(buf, before.len() as int)
        }),
    decreases entries.len(),
{
    let close = seq![END] + after;
    let buf = before + dict_bytes(entries) + close;
    let at = before.len() as int;
    if entries.len() == 0 {
        assert(buf[at] == END);
    } else {
        let tail = entries.subrange(1, entries.len() as int);
        let key = encoded_bytes(entries[0].0);
        let value = node_bytes(entries[0].1);
        let rest = dict_bytes(tail) + close;
        lemma_entry_groups(before, key, value, dict_bytes(tail), close);
        lemma_string_span(before, entries[0].0, value + rest);
        lemma_value_span(before + key, entries[0].1, rest);
        lemma_entries(before + key + value, tail, after);
        let end = at + key.len();
        let next = end + value.len();
        assert(buf.subrange(end, next) =~= value) by {
            assert(buf == (before + key) + value + rest);
        }
        let found = dict_entries(buf, at);
        let others = dict_entries(buf, next);
        let (start, stop) = byte_string_at(buf, at)->Ok_0;
        assert(found == seq![(buf.subrange(start, stop), stop)] + others);
        assert forall|i: int| 0 <= i < entries.len() implies (#[trigger] found[i]).0
            == entries[i].0 && stands_at(buf, found[i].1, entries[i].1) by {
            if i > 0 {
                assert(found[i] == others[i - 1]);
                assert(others[i - 1].0 == tail[i - 1].0);
            }
        }
    }
}

proof fn lemma_items(before: Seq<u8>, items: Seq<Node>, after: Seq<u8>)
    requires
        before.len() + list_bytes(items).len() + 1 + after.len() <= usize::MAX,
    ensures
        ({
            let buf = before + list_bytes(items) + (seq![END] + after);
            are_items(buf, list_items(buf, before.len() as int), items)
        }),
    decreases items.len(),
{
    let close = seq![END] + after;
    let buf = before + list_bytes(items) + close;
    let at = before.len() as int;
    if items.len() == 0 {
        assert(buf[at] == END);
    } else {
        let tail = items.subrange(1, items.len() as int);
        let first = node_bytes(items[0]);
        let rest = list_bytes(tail) + close;
        assert(buf =~= before + first + rest);
        lemma_value_span(before, items[0], rest);
        assert(buf =~= (before + first) + list_bytes(tail) + close);
        lemma_items(before + first, tail, after);
        let next = at + first.len();
        assert(buf.subrange(at, next) =~= first);
        let found = list_items(buf, at);
        let others = list_items(buf, next);
        assert(found == seq![at] + others);
        assert forall|i: int| 0 <= i < items.len() implies stands_at(
            buf,
            #[trigger] found[i],
            items[i],
        ) by {
            if i > 0 {
                assert(found[i] == others[i - 1]);
                assert(stands_at(buf, others[i - 1], tail[i - 1]));
            }
        }
    }
}

/// The keys of a dictionary that stands somewhere.
proof fn lemma_dict_at(buf: Seq<u8>, at: int, entries: Seq<(Seq<u8>, Node)>)
    requires
        buf.len() <= usize::MAX,
        stands_at(buf, at, Node::Dict(entries)),
    ensures
        at < buf.len(),
        buf[at] == DICT,
        are_entries(buf, dict_entries(buf, at + 1), entries),
        !has_stray_key(buf, at + 1),
{
    let bytes = node_bytes(Node::Dict(entries));
    let before = buf.take(at).push(DICT);
    let after = buf.skip(at + bytes.len());
    assert(buf.subrange(at, at + bytes.len())[0] == DICT);
    assert(buf =~= buf.take(at) + bytes + after);
    assert(buf =~= before + dict_bytes(entries) + (seq![END] + after));
    lemma_entries(before, entries, after);
}

proof fn lemma_list_at(buf: Seq<u8>, at: int, items: Seq<Node>)
    requires
        buf.len() <= usize::MAX,
        stands_at(buf, at, Node::List(items)),
    ensures
        at < buf.len(),
        buf[at] == LIST,
        are_items(buf, list_items(buf, at + 1), items),
{
    let bytes = node_bytes(Node::List(items));
    let before = buf.take(at).push(LIST);
    let after = buf.skip(at + bytes.len());
    assert(buf.subrange(at, at + bytes.len())[0] == LIST);
    assert(buf =~= buf.take(at) + bytes + after);
    assert(buf =~= before + list_bytes(items) + (seq![END] + after));
    lemma_items(before, items, after);
}

/// Whether the value under `key` is read, in a torrent, in its info dictionary or in an entry of
/// its file list.
pub open spec fn is_known(level: Level, key: Seq<u8>) -> bool {
    match level {
        Level::Torrent => {
            ||| key == encode_utf8("announce"@)
            ||| key == encode_utf8("announce-list"@)
            ||| key == encode_utf8("info"@)
            ||| key == encode_utf8("comment"@)
            ||| key == encode_utf8("created by"@)
            ||| key == encode_utf8("creation date"@)
            ||| key == encode_utf8("encoding"@)
        },
        Level::Info => {
            ||| key == encode_utf8("name"@)
            ||| key == encode_utf8("piece length"@)
            ||| key == encode_utf8("pieces"@)
            ||| key == encode_utf8("length"@)
            ||| key == encode_utf8("files"@)
            ||| key == encode_utf8("private"@)
        },
        Level::Files => false,
        Level::File => {
            ||| key == encode_utf8("length"@)
            ||| key == encode_utf8("path"@)
            ||| key == encode_utf8("md5sum"@)
        },
    }
}

proof fn lemma_known(level: Level, key: Seq<u8>)
    ensures
        is_known(level, key) <==> is_among(key, level.keys()),
{
    let keys = level.keys();
    match level {
        Level::Torrent => {
            assert(keys.len() == 7);
            assert(keys[0] == "announce"@ && keys[1] == "announce-list"@ && keys[2] == "info"@
                && keys[3] == "comment"@ && keys[4] == "created by"@ && keys[5] == "creation date"@
                && keys[6] == "encoding"@);
        },
        Level::Info => {
            assert(keys.len() == 6);
            assert(keys[0] == "name"@ && keys[1] == "piece length"@ && keys[2] == "pieces"@
                && keys[3] == "length"@ && keys[4] == "files"@ && keys[5] == "private"@);
        },
        Level::Files => {},
        Level::File => {
            assert(keys.len() == 3);
            assert(keys[0] == "length"@ && keys[1] == "path"@ && keys[2] == "md5sum"@);
        },
    }
}

/// Whether `value` holds what is read of `node`: a dictionary has its keys, each known one with
/// what is read of its value; a file list has its entries, one for one; anything else is what the
/// parser makes of its bytes.
pub open spec fn holds(value: BencodeView, node: Node, level: Level) -> bool
    decreases level.depth(),
{
    match node {
        Node::Dict(entries) => if level != Level::Files {
            value matches BencodeView::Dict(map) && {
                &&& forall|i: int|
                    #![trigger entries[i]]
                    0 <= i < entries.len() ==> map.dom().contains(entries[i].0) && (is_known(
                        level,
                        entries[i].0,
                    ) ==> (if level == Level::Torrent && entries[i].0 == encode_utf8("info"@) {
                        holds(map[entries[i].0], entries[i].1, Level::Info)
                    } else if level == Level::Info && entries[i].0 == encode_utf8("files"@) {
                        holds(map[entries[i].0], entries[i].1, Level::Files)
                    } else {
                        bencode_parse(node_bytes(entries[i].1)) == Some(map[entries[i].0])
                    }))
                &&& forall|key: Seq<u8>| #[trigger]
                    map.dom().contains(key) ==> exists|i: int|
                        0 <= i < entries.len() && (#[trigger] entries[i]).0 == key
            }
        } else {
            bencode_parse(node_bytes(node)) == Some(value)
        },
        Node::List(items) => if level == Level::Files {
            value matches BencodeView::List(values) && values.len() == items.len() && forall|i: int|
                0 <= i < items.len() ==> holds(#[trigger] values[i], items[i], Level::File)
        } else {
            bencode_parse(node_bytes(node)) == Some(value)
        },
        _ => bencode_parse(node_bytes(node)) == Some(value),
    }
}

/// Whether everything that is read of `node` can be parsed.
pub open spec fn can_be_read(node: Node, level: Level) -> bool
    decreases level.depth(),
{
    match node {
        Node::Dict(entries) => if level != Level::Files {
            forall|i: int|
                0 <= i < entries.len() && is_known(level, (#[trigger] entries[i]).0) ==> (if level
                    == Level::Torrent && entries[i].0 == encode_utf8("info"@) {
                    can_be_read(entries[i].1, Level::Info)
                } else if level == Level::Info && entries[i].0 == encode_utf8("files"@) {
                    can_be_read(entries[i].1, Level::Files)
                } else {
                    bencode_parse(node_bytes(entries[i].1)) is Some
                })
        } else {
            bencode_parse(node_bytes(node)) is Some
        },
        Node::List(items) => if level == Level::Files {
            forall|i: int| 0 <= i < items.len() ==> can_be_read(#[trigger] items[i], Level::File)
        } else {
            bencode_parse(node_bytes(node)) is Some
        },
        _ => bencode_parse(node_bytes(node)) is Some,
    }
}

/// Whether no key stands twice in a dictionary that is read.
pub open spec fn has_no_repeats(node: Node, level: Level) -> bool
    decreases level.depth(),
{
    match node {
        Node::Dict(entries) => level != Level::Files ==> {
            &&& distinct_keys(entries)
            &&& forall|i: int|
                0 <= i < entries.len() ==> {
                    &&& level == Level::Torrent && (#[trigger] entries[i]).0 == encode_utf8("info"@)
                        ==> has_no_repeats(entries[i].1, Level::Info)
                    &&& level == Level::Info && entries[i].0 == encode_utf8("files"@)
                        ==> has_no_repeats(entries[i].1, Level::Files)
                }
        },
        Node::List(items) => level == Level::Files ==> forall|i: int|
            0 <= i < items.len() ==> has_no_repeats(#[trigger] items[i], Level::File),
        _ => true,
    }
}

proof fn lemma_first_byte(buf: Seq<u8>, at: int, node: Node)
    requires
        buf.len() <= usize::MAX,
        stands_at(buf, at, node),
    ensures
        at < buf.len(),
        buf[at] == DICT <==> node is Dict,
        buf[at] == LIST <==> node is List,
{
    lemma_end(buf, at, node);
    assert(buf.subrange(at, at + node_bytes(node).len())[0] == buf[at]);
    match node {
        Node::Str(bytes) => {
            lemma_string_span(Seq::empty(), bytes, Seq::empty());
            let text = encoded_bytes(bytes);
            assert(Seq::<u8>::empty() + text + Seq::<u8>::empty() =~= text);
        },
        _ => {},
    }
}

proof fn lemma_whole(buf: Seq<u8>, at: int, node: Node)
    requires
        buf.len() <= usize::MAX,
        stands_at(buf, at, node),
    ensures
        whole_value(buf, at) == bencode_parse(node_bytes(node)),
{
    lemma_end(buf, at, node);
}

/// What is read of a value that stands somewhere.
proof fn lemma_value(buf: Seq<u8>, at: int, node: Node, level: Level)
    requires
        buf.len() <= usize::MAX,
        stands_at(buf, at, node),
        has_no_repeats(node, level),
    ensures
        value_at(buf, level, at) is Some <==> can_be_read(node, level),
        value_at(buf, level, at) matches Some(value) ==> holds(value, node, level),
    decreases level.depth(), 1int,
{
    lemma_first_byte(buf, at, node);
    lemma_whole(buf, at, node);
    match node {
        Node::Dict(entries) => if level != Level::Files {
            lemma_dict_at(buf, at, entries);
            let found = dict_entries(buf, at + 1);
            lemma_parts(buf, level, found, entries);
            match part_values(buf, level, found) {
                Some(parts) => {
                    let map = entry_map(parts);
                    assert(distinct_keys(parts)) by {
                        assert forall|a: int, b: int| 0 <= a < b < parts.len() implies (
                        #[trigger] parts[a]).0 != (#[trigger] parts[b]).0 by {
                            assert(entries[a].0 != entries[b].0);
                        }
                    }
                    assert forall|i: int| #![trigger entries[i]] 0 <= i < entries.len() implies
                        map.dom().contains(entries[i].0) && map[entries[i].0] == parts[i].1 by {
                        lemma_entry_map_get(parts, i);
                    }
                    assert forall|key: Seq<u8>| #[trigger] map.dom().contains(key) implies exists|
                        i: int,
                    | 0 <= i < entries.len() && (#[trigger] entries[i]).0 == key by {
                        lemma_entry_map_dom(parts, key);
                        let i = choose|i: int| 0 <= i < parts.len() && (#[trigger] parts[i]).0
                            == key;
                        assert(entries[i].0 == key);
                    }
                },
                None => {},
            }
        },
        Node::List(items) => if level == Level::Files {
            lemma_list_at(buf, at, items);
            lemma_file_parts(buf, list_items(buf, at + 1), items);
        },
        _ => {},
    }
}

/// What is read of the value of one entry.
spec fn part_holds(value: BencodeView, level: Level, key: Seq<u8>, node: Node) -> bool {
    is_known(level, key) ==> (if level == Level::Torrent && key == encode_utf8("info"@) {
        holds(value, node, Level::Info)
    } else if level == Level::Info && key == encode_utf8("files"@) {
        holds(value, node, Level::Files)
    } else {
        bencode_parse(node_bytes(node)) == Some(value)
    })
}

spec fn part_can_be_read(level: Level, key: Seq<u8>, node: Node) -> bool {
    is_known(level, key) ==> (if level == Level::Torrent && key == encode_utf8("info"@) {
        can_be_read(node, Level::Info)
    } else if level == Level::Info && key == encode_utf8("files"@) {
        can_be_read(node, Level::Files)
    } else {
        bencode_parse(node_bytes(node)) is Some
    })
}

proof fn lemma_parts(
    buf: Seq<u8>,
    level: Level,
    found: Seq<(Seq<u8>, int)>,
    entries: Seq<(Seq<u8>, Node)>,
)
    requires
        buf.len() <= usize::MAX,
        level != Level::Files,
        are_entries(buf, found, entries),
        forall|i: int|
            0 <= i < entries.len() ==> {
                &&& level == Level::Torrent && (#[trigger] entries[i]).0 == encode_utf8("info"@)
                    ==> has_no_repeats(entries[i].1, Level::Info)
                &&& level == Level::Info && entries[i].0 == encode_utf8("files"@) ==> has_no_repeats(
                    entries[i].1,
                    Level::Files,
                )
            },
    ensures
        part_values(buf, level, found) is Some <==> forall|i: int|
            0 <= i < entries.len() ==> part_can_be_read(
                level,
                (#[trigger] entries[i]).0,
                entries[i].1,
            ),
        part_values(buf, level, found) matches Some(parts) ==> parts.len() == entries.len()
            && forall|i: int|
            0 <= i < entries.len() ==> (#[trigger] parts[i]).0 == entries[i].0 && part_holds(
                parts[i].1,
                level,
                entries[i].0,
                entries[i].1,
            ),
    decreases level.depth(), 0int, entries.len(),
{
    if entries.len() > 0 {
        let front = entries.drop_last();
        let rest = found.drop_last();
        assert forall|i: int| 0 <= i < front.len() implies (#[trigger] rest[i]).0 == front[i].0
            && stands_at(buf, rest[i].1, front[i].1) by {
            assert(found[i].0 == entries[i].0);
        }
        assert forall|i: int| 0 <= i < front.len() implies {
            &&& level == Level::Torrent && (#[trigger] front[i]).0 == encode_utf8("info"@)
                ==> has_no_repeats(front[i].1, Level::Info)
            &&& level == Level::Info && front[i].0 == encode_utf8("files"@) ==> has_no_repeats(
                front[i].1,
                Level::Files,
            )
        } by {
            assert(front[i] == entries[i]);
        }
        lemma_parts(buf, level, rest, front);
        let last = entries.len() - 1;
        let (key, at) = found.last();
        assert(found[last].0 == entries[last].0);
        let node = entries[last].1;
        lemma_known(level, key);
        lemma_whole(buf, at, node);
        reveal_strlit("info");
        reveal_strlit("files");
        if level == Level::Torrent && key == encode_utf8("info"@) {
            assert(is_known(level, key));
            lemma_value(buf, at, node, Level::Info);
        } else if level == Level::Info && key == encode_utf8("files"@) {
            assert(is_known(level, key));
            lemma_value(buf, at, node, Level::Files);
        }
        assert(part_value(buf, level, key, at) is Some <==> part_can_be_read(level, key, node));
        if forall|i: int| 0 <= i < entries.len() ==> part_can_be_read(
            level,
            (#[trigger] entries[i]).0,
            entries[i].1,
        ) {
            assert(part_can_be_read(level, entries[last].0, entries[last].1));
            assert forall|i: int| 0 <= i < front.len() implies part_can_be_read(
                level,
                (#[trigger] front[i]).0,
                front[i].1,
            ) by {
                assert(part_can_be_read(level, entries[i].0, entries[i].1));
            }
        }
        match part_values(buf, level, found) {
            Some(parts) => {
                assert forall|i: int| 0 <= i < entries.len() implies part_can_be_read(
                    level,
                    (#[trigger] entries[i]).0,
                    entries[i].1,
                ) by {
                    if i < last {
                        assert(front[i] == entries[i]);
                    }
                }
                let before = part_values(buf, level, rest)->0;
                assert forall|i: int| 0 <= i < entries.len() implies (#[trigger] parts[i]).0
                    == entries[i].0 && part_holds(
                    parts[i].1,
                    level,
                    entries[i].0,
                    entries[i].1,
                ) by {
                    if i < last {
                        assert(parts[i] == before[i]);
                        assert(front[i] == entries[i]);
                    }
                }
            },
            None => {},
        }
    }
}

proof fn lemma_file_parts(buf: Seq<u8>, found: Seq<int>, items: Seq<Node>)
    requires
        buf.len() <= usize::MAX,
        are_items(buf, found, items),
        forall|i: int| 0 <= i < items.len() ==> has_no_repeats(#[trigger] items[i], Level::File),
    ensures
        file_values(buf, found) is Some <==> forall|i: int|
            0 <= i < items.len() ==> can_be_read(#[trigger] items[i], Level::File),
        file_values(buf, found) matches Some(values) ==> values.len() == items.len() && forall|
            i: int,
        |
            0 <= i < items.len() ==> holds(#[trigger] values[i], items[i], Level::File),
    decreases Level::File.depth(), 2int, items.len(),
{
    if items.len() > 0 {
        let front = items.drop_last();
        let rest = found.drop_last();
        assert forall|i: int| 0 <= i < front.len() implies stands_at(
            buf,
            #[trigger] rest[i],
            front[i],
        ) by {
            assert(stands_at(buf, found[i], items[i]));
        }
        assert forall|i: int| 0 <= i < front.len() implies has_no_repeats(
            #[trigger] front[i],
            Level::File,
        ) by {
            assert(front[i] == items[i]);
        }
        lemma_file_parts(buf, rest, front);
        let last = items.len() - 1;
        assert(stands_at(buf, found[last], items[last]));
        assert(has_no_repeats(items[last], Level::File));
        lemma_value(buf, found[last], items[last], Level::File);
        if forall|i: int| 0 <= i < items.len() ==> can_be_read(#[trigger] items[i], Level::File) {
            assert(can_be_read(items[last], Level::File));
            assert forall|i: int| 0 <= i < front.len() implies can_be_read(
                #[trigger] front[i],
                Level::File,
            ) by {
                assert(front[i] == items[i]);
            }
        }
        match file_values(buf, found) {
            Some(values) => {
                let before = file_values(buf, rest)->0;
                assert forall|i: int| 0 <= i < items.len() implies can_be_read(
                    #[trigger] items[i],
                    Level::File,
                ) by {
                    if i < last {
                        assert(front[i] == items[i]);
                    }
                }
                assert forall|i: int| 0 <= i < items.len() implies holds(
                    #[trigger] values[i],
                    items[i],
                    Level::File,
                ) by {
                    if i < last {
                        assert(values[i] == before[i]);
                        assert(front[i] == items[i]);
                    }
                }
            },
            None => {},
        }
    }
}

/// What is read off the front of a torrent's bytes is what stands there under the known keys, all
/// of it and nothing else; unknown keys, and bytes that follow the torrent, do not matter.
pub proof fn law_known_values_are_read(
    bytes: &[u8],
    entries: Seq<(Seq<u8>, Node)>,
    after: Seq<u8>,
    result: std::result::Result<Bencode, String>,
)
    requires
        bytes@ == node_bytes(Node::Dict(entries)) + after,
        bytes@.len() <= usize::MAX,
        has_no_repeats(Node::Dict(entries), Level::Torrent),
        call_ensures(read_outline, (bytes,), result),
    ensures
        result is Ok <==> bencode_readable(bytes@) && can_be_read(
            Node::Dict(entries),
            Level::Torrent,
        ),
        result matches Ok(value) ==> holds(value.view(), Node::Dict(entries), Level::Torrent),
{
    assert(bytes@.subrange(0, node_bytes(Node::Dict(entries)).len() as int) =~= node_bytes(
        Node::Dict(entries),
    ));
    lemma_value(bytes@, 0, Node::Dict(entries), Level::Torrent);
}

proof fn lemma_occurrences(
    buf: Seq<u8>,
    found: Seq<(Seq<u8>, int)>,
    entries: Seq<(Seq<u8>, Node)>,
    key: Seq<u8>,
)
    requires
        are_entries(buf, found, entries),
        distinct_keys(entries),
    ensures
        occurrences(found, key) <= 1,
        occurrences(found, key) == 1 ==> exists|i: int|
            0 <= i < entries.len() && (#[trigger] entries[i]).0 == key,
    decreases entries.len(),
{
    if entries.len() > 0 {
        let front = entries.drop_last();
        let rest = found.drop_last();
        assert forall|i: int| 0 <= i < front.len() implies (#[trigger] rest[i]).0 == front[i].0
            && stands_at(buf, rest[i].1, front[i].1) by {
            assert(found[i].0 == entries[i].0);
        }
        lemma_occurrences(buf, rest, front, key);
        let last = entries.len() - 1;
        assert(found[last].0 == entries[last].0);
        if occurrences(rest, key) == 1 {
            let i = choose|i: int| 0 <= i < front.len() && (#[trigger] front[i]).0 == key;
            assert(entries[i].0 == key);
            assert(entries[i].0 != entries[last].0);
        }
        if found.last().0 == key {
            assert(entries[last].0 == key);
        }
    }
}

proof fn lemma_none_repeated(
    buf: Seq<u8>,
    found: Seq<(Seq<u8>, int)>,
    entries: Seq<(Seq<u8>, Node)>,
    keys: Seq<Seq<char>>,
)
    requires
        are_entries(buf, found, entries),
        distinct_keys(entries),
    ensures
        first_repeated(found, keys) is None,
    decreases keys.len(),
{
    if keys.len() > 0 {
        lemma_occurrences(buf, found, entries, encode_utf8(keys[0]));
        lemma_none_repeated(buf, found, entries, keys.skip(1));
    }
}

proof fn lemma_first_value(
    buf: Seq<u8>,
    found: Seq<(Seq<u8>, int)>,
    entries: Seq<(Seq<u8>, Node)>,
    key: Seq<u8>,
)
    requires
        are_entries(buf, found, entries),
    ensures
        first_value(found, key) matches Some(at) ==> exists|i: int|
            0 <= i < entries.len() && (#[trigger] entries[i]).0 == key && stands_at(
                buf,
                at,
                entries[i].1,
            ),
    decreases entries.len(),
{
    if entries.len() > 0 {
        assert(found[0].0 == entries[0].0);
        if found[0].0 != key {
            let tail = entries.skip(1);
            let rest = found.skip(1);
            assert forall|i: int| 0 <= i < tail.len() implies (#[trigger] rest[i]).0 == tail[i].0
                && stands_at(buf, rest[i].1, tail[i].1) by {
                assert(found[i + 1].0 == entries[i + 1].0);
            }
            lemma_first_value(buf, rest, tail, key);
            if first_value(rest, key) is Some {
                let at = first_value(rest, key)->0;
                let i = choose|i: int|
                    0 <= i < tail.len() && (#[trigger] tail[i]).0 == key && stands_at(
                        buf,
                        at,
                        tail[i].1,
                    );
                assert(entries[i + 1].0 == key);
            }
        }
    }
}

proof fn lemma_keys_fine_at(
    buf: Seq<u8>,
    at: int,
    node: Node,
    level: Level,
    keys: Seq<Seq<char>>,
)
    requires
        buf.len() <= usize::MAX,
        level != Level::Files,
        stands_at(buf, at, node),
        has_no_repeats(node, level),
    ensures
        key_fault_at(buf, at, keys) is None,
{
    lemma_first_byte(buf, at, node);
    match node {
        Node::Dict(entries) => {
            lemma_dict_at(buf, at, entries);
            lemma_none_repeated(buf, dict_entries(buf, at + 1), entries, keys);
        },
        _ => {},
    }
}

proof fn lemma_files_fine(buf: Seq<u8>, found: Seq<int>, items: Seq<Node>)
    requires
        buf.len() <= usize::MAX,
        are_items(buf, found, items),
        forall|i: int| 0 <= i < items.len() ==> has_no_repeats(#[trigger] items[i], Level::File),
    ensures
        key_fault_in_files(buf, found) is None,
    decreases items.len(),
{
    if items.len() > 0 {
        assert(stands_at(buf, found[0], items[0]));
        assert(has_no_repeats(items[0], Level::File));
        lemma_keys_fine_at(buf, found[0], items[0], Level::File, file_keys());
        let tail = items.skip(1);
        let rest = found.skip(1);
        assert forall|i: int| 0 <= i < tail.len() implies stands_at(
            buf,
            #[trigger] rest[i],
            tail[i],
        ) by {
            assert(stands_at(buf, found[i + 1], items[i + 1]));
        }
        assert forall|i: int| 0 <= i < tail.len() implies has_no_repeats(
            #[trigger] tail[i],
            Level::File,
        ) by {
            assert(tail[i] == items[i + 1]);
        }
        lemma_files_fine(buf, rest, tail);
    }
}

proof fn lemma_keys_fine(buf: Seq<u8>, entries: Seq<(Seq<u8>, Node)>)
    requires
        buf.len() <= usize::MAX,
        stands_at(buf, 0, Node::Dict(entries)),
        has_no_repeats(Node::Dict(entries), Level::Torrent),
    ensures
        key_fault(buf) is None,
{
    lemma_keys_fine_at(buf, 0, Node::Dict(entries), Level::Torrent, torrent_keys());
    lemma_dict_at(buf, 0, entries);
    let found = dict_entries(buf, 1);
    lemma_first_value(buf, found, entries, encode_utf8("info"@));
    match first_value(found, encode_utf8("info"@)) {
        None => {},
        Some(at) => {
            let i = choose|i: int|
                0 <= i < entries.len() && (#[trigger] entries[i]).0 == encode_utf8("info"@)
                    && stands_at(buf, at, entries[i].1);
            let info = entries[i].1;
            assert(has_no_repeats(info, Level::Info));
            lemma_keys_fine_at(buf, at, info, Level::Info, info_keys());
            lemma_first_byte(buf, at, info);
            match info {
                Node::Dict(inner) => {
                    lemma_dict_at(buf, at, inner);
                    let keys = dict_entries(buf, at + 1);
                    lemma_first_value(buf, keys, inner, encode_utf8("files"@));
                    match first_value(keys, encode_utf8("files"@)) {
                        None => {},
                        Some(list) => {
                            let k = choose|k: int|
                                0 <= k < inner.len() && (#[trigger] inner[k]).0 == encode_utf8(
                                    "files"@,
                                ) && stands_at(buf, list, inner[k].1);
                            let files = inner[k].1;
                            assert(has_no_repeats(files, Level::Files));
                            lemma_first_byte(buf, list, files);
                            match files {
                                Node::List(items) => {
                                    lemma_list_at(buf, list, items);
                                    lemma_files_fine(buf, list_items(buf, list + 1), items);
                                },
                                _ => {},
                            }
                        },
                    }
                },
                _ => {},
            }
        },
    }
}

pub(crate) proof fn lemma_info_key()
    ensures
        encode_utf8("info"@) == info_key(),
{
    reveal_strlit("info");
    assert(is_ascii_chars("info"@));
    is_ascii_chars_encode_utf8("info"@);
    assert(encode_utf8("info"@) =~= info_key());
}

/// A torrent is read off its bytes just as its known values write it, and its info hash is that of
/// the very bytes of its info dictionary.
pub proof fn law_torrents_are_read_off_their_bytes(
    bytes: &[u8],
    entries: Seq<(Seq<u8>, Node)>,
    at: int,
    after: Seq<u8>,
    outlined: std::result::Result<Bencode, String>,
    result: Result<Metainfo>,
    meta: MetainfoView,
)
    requires
        bytes@ == node_bytes(Node::Dict(entries)) + after,
        bytes@.len() <= usize::MAX,
        has_no_repeats(Node::Dict(entries), Level::Torrent),
        0 <= at < entries.len(),
        entries[at].0 == encode_utf8("info"@),
        meta.raw_info_hash is None,
        call_ensures(read_outline, (bytes,), outlined),
        call_ensures(Metainfo::from_bytes, (bytes,), result),
    ensures
        outlined is Err ==> (result matches Err(error) && error@ is BencodeDecode),
        result matches Ok(found) ==> found@.raw_info_hash == Some(
            sha1_of(node_bytes(entries[at].1)),
        ),
        outlined matches Ok(value) ==> {
            is_torrent(value.view(), meta) <==> (result matches Ok(found) && found@
                == (MetainfoView {
                raw_info_hash: Some(sha1_of(node_bytes(entries[at].1))),
                ..meta
            }))
        },
{
    let buf = bytes@;
    assert(buf.subrange(0, node_bytes(Node::Dict(entries)).len() as int) =~= node_bytes(
        Node::Dict(entries),
    ));
    lemma_keys_fine(buf, entries);
    lemma_info_key();
    assert forall|i: int| 0 <= i < at implies (#[trigger] entries[i]).0 != info_key() by {
        assert(entries[i].0 != entries[at].0);
    }
    law_raw_info_is_exact(entries, at, after);
    match outlined {
        Ok(value) => {
            crate::laws::reading::lemma_torrent(value.view(), meta);
            match result {
                Ok(found) => {
                    let read = crate::decode::metainfo_of(value.view())->Ok_0;
                    crate::laws::reading::lemma_torrent(value.view(), read);
                    if found@ == (MetainfoView {
                        raw_info_hash: Some(sha1_of(node_bytes(entries[at].1))),
                        ..meta
                    }) {
                        assert(read =~= meta);
                    }
                },
                Err(_) => {},
            }
        },
        Err(_) => {},
    }
}

proof fn lemma_counted(found: Seq<(Seq<u8>, int)>, i: int)
    requires
        0 <= i < found.len(),
    ensures
        occurrences(found, found[i].0) >= 1,
    decreases found.len(),
{
    if i < found.len() - 1 {
        lemma_counted(found.drop_last(), i);
    }
}

proof fn lemma_counted_twice(found: Seq<(Seq<u8>, int)>, i: int, j: int)
    requires
        0 <= i < j < found.len(),
        found[i].0 == found[j].0,
    ensures
        occurrences(found, found[i].0) >= 2,
    decreases found.len(),
{
    if j < found.len() - 1 {
        lemma_counted_twice(found.drop_last(), i, j);
    } else {
        lemma_counted(found.drop_last(), i);
    }
}

proof fn lemma_some_repeated(found: Seq<(Seq<u8>, int)>, keys: Seq<Seq<char>>, k: int)
    requires
        0 <= k < keys.len(),
        occurrences(found, encode_utf8(keys[k])) > 1,
    ensures
        first_repeated(found, keys) is Some,
    decreases keys.len(),
{
    if k > 0 && occurrences(found, encode_utf8(keys[0])) <= 1 {
        lemma_some_repeated(found, keys.skip(1), k - 1);
    }
}

/// Whether a known key of a dictionary stands twice.
pub open spec fn repeats_a_key(node: Node, level: Level) -> bool {
    node matches Node::Dict(entries) && exists|i: int, j: int|
        0 <= i < j < entries.len() && (#[trigger] entries[i]).0 == (#[trigger] entries[j]).0
            && is_known(level, entries[i].0)
}

proof fn lemma_fault_at(buf: Seq<u8>, at: int, node: Node, level: Level)
    requires
        buf.len() <= usize::MAX,
        stands_at(buf, at, node),
        repeats_a_key(node, level),
    ensures
        key_fault_at(buf, at, level.keys()) is Some,
{
    let entries = node->Dict_0;
    let (i, j) = choose|i: int, j: int|
        0 <= i < j < entries.len() && (#[trigger] entries[i]).0 == (#[trigger] entries[j]).0
            && is_known(level, entries[i].0);
    lemma_first_byte(buf, at, node);
    lemma_dict_at(buf, at, entries);
    let found = dict_entries(buf, at + 1);
    assert(found[i].0 == entries[i].0);
    assert(found[j].0 == entries[j].0);
    lemma_counted_twice(found, i, j);
    lemma_known(level, entries[i].0);
    let k = choose|k: int|
        0 <= k < level.keys().len() && entries[i].0 == encode_utf8(#[trigger] level.keys()[k]);
    lemma_some_repeated(found, level.keys(), k);
}

proof fn lemma_value_found(
    buf: Seq<u8>,
    found: Seq<(Seq<u8>, int)>,
    entries: Seq<(Seq<u8>, Node)>,
    at: int,
)
    requires
        are_entries(buf, found, entries),
        distinct_keys(entries),
        0 <= at < entries.len(),
    ensures
        first_value(found, entries[at].0) == Some(found[at].1),
        stands_at(buf, found[at].1, entries[at].1),
    decreases at,
{
    assert(found[at].0 == entries[at].0);
    if at > 0 {
        let tail = entries.skip(1);
        let rest = found.skip(1);
        assert forall|i: int| 0 <= i < tail.len() implies (#[trigger] rest[i]).0 == tail[i].0
            && stands_at(buf, rest[i].1, tail[i].1) by {
            assert(found[i + 1].0 == entries[i + 1].0);
        }
        assert forall|i: int, j: int| 0 <= i < j < tail.len() implies (#[trigger] tail[i]).0 != (
        #[trigger] tail[j]).0 by {
            assert(entries[i + 1].0 != entries[j + 1].0);
        }
        assert(found[0].0 == entries[0].0);
        assert(entries[0].0 != entries[at].0);
        lemma_value_found(buf, rest, tail, at - 1);
        assert(tail[at - 1] == entries[at]);
        assert(rest[at - 1] == found[at]);
    }
}

proof fn lemma_fault_in_files(buf: Seq<u8>, found: Seq<int>, items: Seq<Node>, f: int)
    requires
        buf.len() <= usize::MAX,
        are_items(buf, found, items),
        0 <= f < items.len(),
        repeats_a_key(items[f], Level::File),
    ensures
        key_fault_in_files(buf, found) is Some,
    decreases f,
{
    assert(stands_at(buf, found[0], items[0]));
    if f == 0 {
        lemma_fault_at(buf, found[0], items[0], Level::File);
    } else {
        let tail = items.skip(1);
        let rest = found.skip(1);
        assert forall|i: int| 0 <= i < tail.len() implies stands_at(
            buf,
            #[trigger] rest[i],
            tail[i],
        ) by {
            assert(stands_at(buf, found[i + 1], items[i + 1]));
        }
        assert(tail[f - 1] == items[f]);
        lemma_fault_in_files(buf, rest, tail, f - 1);
    }
}

/// A torrent in which a known key stands twice is refused, be it in the torrent itself, in its info
/// dictionary or in an entry of its file list.
pub proof fn law_repeated_keys_are_refused(
    bytes: &[u8],
    entries: Seq<(Seq<u8>, Node)>,
    after: Seq<u8>,
    result: Result<Metainfo>,
    at: int,
    inner: Seq<(Seq<u8>, Node)>,
    list: int,
    items: Seq<Node>,
    f: int,
)
    requires
        bytes@ == node_bytes(Node::Dict(entries)) + after,
        bytes@.len() <= usize::MAX,
        call_ensures(Metainfo::from_bytes, (bytes,), result),
        repeats_a_key(Node::Dict(entries), Level::Torrent) || {
            &&& distinct_keys(entries)
            &&& 0 <= at < entries.len()
            &&& entries[at] == (encode_utf8("info"@), Node::Dict(inner))
            &&& repeats_a_key(Node::Dict(inner), Level::Info) || {
                &&& distinct_keys(inner)
                &&& 0 <= list < inner.len()
                &&& inner[list] == (encode_utf8("files"@), Node::List(items))
                &&& 0 <= f < items.len()
                &&& repeats_a_key(items[f], Level::File)
            }
        },
    ensures
        result matches Err(error) && error@ is BencodeDecode,
{
    let buf = bytes@;
    assert(buf.subrange(0, node_bytes(Node::Dict(entries)).len() as int) =~= node_bytes(
        Node::Dict(entries),
    ));
    if repeats_a_key(Node::Dict(entries), Level::Torrent) {
        lemma_fault_at(buf, 0, Node::Dict(entries), Level::Torrent);
    } else {
        lemma_dict_at(buf, 0, entries);
        let found = dict_entries(buf, 1);
        lemma_value_found(buf, found, entries, at);
        let start = found[at].1;
        lemma_first_byte(buf, start, Node::Dict(inner));
        lemma_dict_at(buf, start, inner);
        if repeats_a_key(Node::Dict(inner), Level::Info) {
            lemma_fault_at(buf, start, Node::Dict(inner), Level::Info);
        } else {
            let keys = dict_entries(buf, start + 1);
            lemma_value_found(buf, keys, inner, list);
            let place = keys[list].1;
            lemma_first_byte(buf, place, Node::List(items));
            lemma_list_at(buf, place, items);
            lemma_fault_in_files(buf, list_items(buf, place + 1), items, f);
        }
    }
}

/// A dictionary without an info dictionary is no torrent.
pub proof fn law_torrents_need_an_info(
    bytes: &[u8],
    entries: Seq<(Seq<u8>, Node)>,
    after: Seq<u8>,
    outlined: std::result::Result<Bencode, String>,
    result: Result<Metainfo>,
)
    requires
        bytes@ == node_bytes(Node::Dict(entries)) + after,
        bytes@.len() <= usize::MAX,
        has_no_repeats(Node::Dict(entries), Level::Torrent),
        forall|i: int| 0 <= i < entries.len() ==> (#[trigger] entries[i]).0 != encode_utf8("info"@),
        call_ensures(read_outline, (bytes,), outlined),
        call_ensures(Metainfo::from_bytes, (bytes,), result),
    ensures
        result matches Err(error) && error@ is BencodeDecode,
{
    law_known_values_are_read(bytes, entries, after, outlined);
    match outlined {
        Ok(value) => {
            match crate::decode::metainfo_of(value.view()) {
                Ok(read) => {
                    crate::laws::reading::lemma_torrent(value.view(), read);
                    let map = value.view()->Dict_0;
                    assert(map.dom().contains(encode_utf8("info"@)));
                },
                Err(_) => {},
            }
        },
        Err(_) => {},
    }
}

/// What is read off a torrent's bytes is what is made of the value at their front.
pub proof fn law_values_make_torrents(
    bytes: &[u8],
    outlined: std::result::Result<Bencode, String>,
    result: Result<Metainfo>,
    value: &Bencode,
    made: Result<Metainfo>,
)
    requires
        call_ensures(read_outline, (bytes,), outlined),
        call_ensures(Metainfo::from_bytes, (bytes,), result),
        call_ensures(Metainfo::from_value, (bytes, value), made),
        outlined matches Ok(found) && found.view() == value.view(),
    ensures
        outcome(result) == outcome(made),
{
}

} // verus!
