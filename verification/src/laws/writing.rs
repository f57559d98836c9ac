//! What is written of a torrent is what is read back.

use vstd::prelude::*;
use vstd::utf8::{
    encode_utf8, encode_utf8_valid_utf8, is_ascii_chars, is_ascii_chars_encode_utf8, valid_utf8,
};
use crate::bencode::{bencode_parse, bencode_readable, Bencode, BencodeView};
use crate::canonical::{
    file_node, files_node, info_node, law_info_encoding_is_canonical, path_node, text_node,
};
use crate::decode::Entries;
use crate::digest::sha1_of;
use crate::error::Result;
use crate::keyed::{distinct_keys, entry_map, lemma_entry_map_dom, lemma_entry_map_get};
use crate::laws::reading::{
    is_file, is_info, is_texts, is_torrent, keys_are_text, lacks, lemma_info, text_value,
};
use crate::laws::source::{
    can_be_read, has_no_repeats, holds, is_known, law_known_values_are_read,
    law_torrents_are_read_off_their_bytes,
};
use crate::metainfo::{FileEntryView, Info, InfoView, Metainfo, MetainfoView};
use crate::outline::{read_outline, Level};
use crate::span::{node_bytes, Node};

verus! {

/// The value that is written as `node`.
pub open spec fn view_of(node: Node) -> BencodeView
    decreases node,
{
    match node {
        Node::Int(negative, n) => BencodeView::Int(
            (if negative {
                -(n as int)
            } else {
                n as int
            }) as i64,
        ),
        Node::Str(bytes) => BencodeView::Str(bytes),
        Node::List(items) => BencodeView::List(views_of(items)),
        Node::Dict(entries) => BencodeView::Dict(entry_map(entry_views(entries))),
    }
}

/// The values of a list.
pub open spec fn views_of(items: Seq<Node>) -> Seq<BencodeView>
    decreases items,
{
    if items.len() == 0 {
        Seq::empty()
    } else {
        seq![view_of(items[0])] + views_of(items.subrange(1, items.len() as int))
    }
}

/// The keys of a dictionary with their values.
pub open spec fn entry_views(entries: Seq<(Seq<u8>, Node)>) -> Seq<(Seq<u8>, BencodeView)>
    decreases entries,
{
    if entries.len() == 0 {
        Seq::empty()
    } else {
        seq![(entries[0].0, view_of(entries[0].1))] + entry_views(
            entries.subrange(1, entries.len() as int),
        )
    }
}

proof fn lemma_views_of(items: Seq<Node>)
    ensures
        views_of(items).len() == items.len(),
        forall|i: int| 0 <= i < items.len() ==> #[trigger] views_of(items)[i] == view_of(items[i]),
    decreases items.len(),
{
    if items.len() > 0 {
        let rest = items.subrange(1, items.len() as int);
        lemma_views_of(rest);
        assert forall|i: int| 0 <= i < items.len() implies #[trigger] views_of(items)[i] == view_of(
            items[i],
        ) by {
            if i > 0 {
                assert(views_of(items)[i] == views_of(rest)[i - 1]);
                assert(rest[i - 1] == items[i]);
            }
        }
    }
}

proof fn lemma_entry_views(entries: Seq<(Seq<u8>, Node)>)
    ensures
        entry_views(entries).len() == entries.len(),
        forall|i: int|
            0 <= i < entries.len() ==> #[trigger] entry_views(entries)[i] == (
                entries[i].0,
                view_of(entries[i].1),
            ),
    decreases entries.len(),
{
    if entries.len() > 0 {
        let rest = entries.subrange(1, entries.len() as int);
        lemma_entry_views(rest);
        assert forall|i: int| 0 <= i < entries.len() implies #[trigger] entry_views(entries)[i] == (
            entries[i].0,
            view_of(entries[i].1),
        ) by {
            if i > 0 {
                assert(entry_views(entries)[i] == entry_views(rest)[i - 1]);
                assert(rest[i - 1] == entries[i]);
            }
        }
    }
}

/// A dictionary without repeated keys has each of its entries, and nothing else.
proof fn lemma_dict_view(entries: Seq<(Seq<u8>, Node)>)
    requires
        distinct_keys(entries),
    ensures
        ({
            let map = entry_map(entry_views(entries));
            &&& forall|i: int|
                0 <= i < entries.len() ==> map.dom().contains((#[trigger] entries[i]).0)
                    && map[entries[i].0] == view_of(entries[i].1)
            &&& forall|key: Seq<u8>| #[trigger]
                map.dom().contains(key) ==> exists|i: int|
                    0 <= i < entries.len() && (#[trigger] entries[i]).0 == key
        }),
{
    let views = entry_views(entries);
    let map = entry_map(views);
    lemma_entry_views(entries);
    assert forall|i: int, j: int| 0 <= i < j < views.len() implies (#[trigger] views[i]).0 != (
    #[trigger] views[j]).0 by {
        assert(entries[i].0 != entries[j].0);
    }
    assert forall|i: int| 0 <= i < entries.len() implies map.dom().contains(
        (#[trigger] entries[i]).0,
    ) && map[entries[i].0] == view_of(entries[i].1) by {
        lemma_entry_map_get(views, i);
        assert(views[i] == (entries[i].0, view_of(entries[i].1)));
    }
    assert forall|key: Seq<u8>| #[trigger] map.dom().contains(key) implies exists|i: int|
        0 <= i < entries.len() && (#[trigger] entries[i]).0 == key by {
        lemma_entry_map_dom(views, key);
        let i = choose|i: int| 0 <= i < views.len() && (#[trigger] views[i]).0 == key;
        assert(views[i] == (entries[i].0, view_of(entries[i].1)));
        assert(entries[i].0 == key);
    }
}

/// Whether `a` comes before `b` as byte strings are ordered.
pub open spec fn comes_before(a: Seq<u8>, b: Seq<u8>) -> bool {
    exists|k: int|
        #![trigger a.take(k)]
        0 <= k < b.len() && k <= a.len() && a.take(k) == b.take(k) && (k == a.len() || a[k] < b[k])
}

/// Whether the keys of a dictionary stand in order, none of them twice.
pub open spec fn keys_ascend(entries: Seq<(Seq<u8>, Node)>) -> bool {
    forall|i: int, j: int|
        0 <= i < j < entries.len() ==> comes_before(
            (#[trigger] entries[i]).0,
            (#[trigger] entries[j]).0,
        )
}

proof fn lemma_before(a: Seq<u8>, b: Seq<u8>, k: int)
    requires
        0 <= k < b.len(),
        k < a.len(),
        a.take(k) == b.take(k),
        a[k] < b[k],
    ensures
        comes_before(a, b),
        a != b,
{
    assert(a.take(k) == b.take(k));
}

proof fn lemma_key(key: Seq<char>)
    requires
        is_ascii_chars(key),
    ensures
        encode_utf8(key).len() == key.len(),
        forall|i: int| 0 <= i < key.len() ==> #[trigger] encode_utf8(key)[i] == key[i] as u8,
{
    is_ascii_chars_encode_utf8(key);
}

proof fn lemma_keys()
    ensures
        comes_before(encode_utf8("files"@), encode_utf8("length"@)),
        comes_before(encode_utf8("files"@), encode_utf8("name"@)),
        comes_before(encode_utf8("files"@), encode_utf8("piece length"@)),
        comes_before(encode_utf8("files"@), encode_utf8("pieces"@)),
        comes_before(encode_utf8("files"@), encode_utf8("private"@)),
        comes_before(encode_utf8("length"@), encode_utf8("name"@)),
        comes_before(encode_utf8("length"@), encode_utf8("piece length"@)),
        comes_before(encode_utf8("length"@), encode_utf8("pieces"@)),
        comes_before(encode_utf8("length"@), encode_utf8("private"@)),
        comes_before(encode_utf8("name"@), encode_utf8("piece length"@)),
        comes_before(encode_utf8("name"@), encode_utf8("pieces"@)),
        comes_before(encode_utf8("name"@), encode_utf8("private"@)),
        comes_before(encode_utf8("piece length"@), encode_utf8("pieces"@)),
        comes_before(encode_utf8("piece length"@), encode_utf8("private"@)),
        comes_before(encode_utf8("pieces"@), encode_utf8("private"@)),
        comes_before(encode_utf8("length"@), encode_utf8("md5sum"@)),
        comes_before(encode_utf8("length"@), encode_utf8("path"@)),
        comes_before(encode_utf8("md5sum"@), encode_utf8("path"@)),
{
    reveal_strlit("files");
    reveal_strlit("length");
    reveal_strlit("name");
    reveal_strlit("piece length");
    reveal_strlit("pieces");
    reveal_strlit("private");
    reveal_strlit("md5sum");
    reveal_strlit("path");
    lemma_key("files"@);
    lemma_key("length"@);
    lemma_key("name"@);
    lemma_key("piece length"@);
    lemma_key("pieces"@);
    lemma_key("private"@);
    lemma_key("md5sum"@);
    lemma_key("path"@);
    let files = encode_utf8("files"@);
    let length = encode_utf8("length"@);
    let name = encode_utf8("name"@);
    let piece_length = encode_utf8("piece length"@);
    let pieces = encode_utf8("pieces"@);
    let private = encode_utf8("private"@);
    let md5sum = encode_utf8("md5sum"@);
    let path = encode_utf8("path"@);
    assert(files[0] == 'f' as u8);
    assert(length[0] == 'l' as u8);
    assert(name[0] == 'n' as u8);
    assert(md5sum[0] == 'm' as u8);
    assert(path[0] == 'p' as u8);
    assert(piece_length[0] == 'p' as u8 && piece_length[1] == 'i' as u8 && piece_length[2]
        == 'e' as u8 && piece_length[3] == 'c' as u8 && piece_length[4] == 'e' as u8
        && piece_length[5] == ' ' as u8);
    assert(pieces[0] == 'p' as u8 && pieces[1] == 'i' as u8 && pieces[2] == 'e' as u8 && pieces[3]
        == 'c' as u8 && pieces[4] == 'e' as u8 && pieces[5] == 's' as u8);
    assert(private[0] == 'p' as u8 && private[1] == 'r' as u8);
    assert(files.take(0) =~= length.take(0));
    lemma_first(files, length);
    lemma_first(files, name);
    lemma_first(files, piece_length);
    lemma_first(files, pieces);
    lemma_first(files, private);
    lemma_first(length, name);
    lemma_first(length, piece_length);
    lemma_first(length, pieces);
    lemma_first(length, private);
    lemma_first(name, piece_length);
    lemma_first(name, pieces);
    lemma_first(name, private);
    lemma_first(length, md5sum);
    lemma_first(length, path);
    lemma_first(md5sum, path);
    assert(piece_length.take(5) =~= pieces.take(5));
    lemma_before(piece_length, pieces, 5);
    assert(piece_length.take(1) =~= private.take(1));
    lemma_before(piece_length, private, 1);
    assert(pieces.take(1) =~= private.take(1));
    lemma_before(pieces, private, 1);
}

proof fn lemma_first(a: Seq<u8>, b: Seq<u8>)
    requires
        a.len() > 0,
        b.len() > 0,
        a[0] < b[0],
    ensures
        comes_before(a, b),
{
    assert(a.take(0) =~= b.take(0));
    lemma_before(a, b, 0);
}

proof fn lemma_before_differs(a: Seq<u8>, b: Seq<u8>)
    requires
        comes_before(a, b),
    ensures
        a != b,
{
}

proof fn lemma_ascending_keys_differ(entries: Seq<(Seq<u8>, Node)>)
    requires
        keys_ascend(entries),
    ensures
        distinct_keys(entries),
{
    assert forall|i: int, j: int| 0 <= i < j < entries.len() implies (#[trigger] entries[i]).0 != (
    #[trigger] entries[j]).0 by {
        lemma_before_differs(entries[i].0, entries[j].0);
    }
}

/// Whether the numbers of an info dictionary can be written as bencode numbers are read.
pub open spec fn numbers_fit(info: InfoView) -> bool {
    &&& info.piece_length <= i64::MAX
    &&& info.length matches Some(length) ==> length <= i64::MAX
    &&& info.files matches Some(files) ==> forall|i: int|
        0 <= i < files.len() ==> (#[trigger] files[i]).length <= i64::MAX
}

proof fn lemma_texts(path: Seq<Seq<char>>)
    ensures
        is_texts(view_of(path_node(path)), path),
{
    let items = Seq::new(path.len(), |i: int| text_node(path[i]));
    lemma_views_of(items);
    assert forall|i: int| 0 <= i < path.len() implies #[trigger] views_of(items)[i] == text_value(
        path[i],
    ) by {
        assert(items[i] == text_node(path[i]));
    }
}

proof fn lemma_file(file: FileEntryView)
    requires
        file.length <= i64::MAX,
    ensures
        is_file(view_of(file_node(file)), file),
        file_node(file) is Dict,
        keys_ascend(file_node(file)->Dict_0),
        forall|i: int|
            0 <= i < file_node(file)->Dict_0.len() ==> is_known(
                Level::File,
                (#[trigger] file_node(file)->Dict_0[i]).0,
            ),
{
    let entries = file_node(file)->Dict_0;
    let n = entries.len() - 1;
    let length = encode_utf8("length"@);
    let md5sum = encode_utf8("md5sum"@);
    let path = encode_utf8("path"@);
    lemma_keys();
    assert(entries[0].0 == length);
    assert(entries[n] == (path, path_node(file.path)));
    match file.md5sum {
        Some(sum) => {
            assert(entries.len() == 3);
            assert(entries[1] == (md5sum, text_node(sum)));
        },
        None => {
            assert(entries.len() == 2);
        },
    }
    lemma_ascending_keys_differ(entries);
    lemma_dict_view(entries);
    lemma_texts(file.path);
    encode_utf8_valid_utf8("length"@);
    encode_utf8_valid_utf8("md5sum"@);
    encode_utf8_valid_utf8("path"@);
    let map = entry_map(entry_views(entries));
    assert(map.dom().contains(entries[0].0));
    assert(map.dom().contains(entries[n].0));
    match file.md5sum {
        Some(sum) => {
            assert(map.dom().contains(entries[1].0));
        },
        None => {
            if map.dom().contains(md5sum) {
                let i = choose|i: int|
                    0 <= i < entries.len() && (#[trigger] entries[i]).0 == md5sum;
                lemma_before_differs(length, md5sum);
                lemma_before_differs(md5sum, path);
                assert(i == 0 || i == 1);
            }
        },
    }
    assert forall|key: Seq<u8>| map.dom().contains(key) implies #[trigger] valid_utf8(key) by {
        let i = choose|i: int| 0 <= i < entries.len() && (#[trigger] entries[i]).0 == key;
        assert(i == 0 || i == 1 || i == 2);
    }
}

/// Where the entries of an info dictionary stand.
proof fn lemma_info_entries(info: InfoView)
    ensures
        ({
            let entries = info_node(info)->Dict_0;
            let a: int = if info.files is Some {
                1
            } else {
                0
            };
            let b: int = a + if info.length is Some {
                1int
            } else {
                0int
            };
            let n: int = b + 3 + if info.private is Some {
                1int
            } else {
                0int
            };
            &&& info_node(info) is Dict
            &&& entries.len() == n
            &&& info.files matches Some(files) ==> entries[0] == (
                encode_utf8("files"@),
                files_node(files),
            )
            &&& info.length matches Some(length) ==> entries[a] == (
                encode_utf8("length"@),
                Node::Int(false, length as nat),
            )
            &&& entries[b] == (encode_utf8("name"@), text_node(info.name))
            &&& entries[b + 1] == (
                encode_utf8("piece length"@),
                Node::Int(false, info.piece_length as nat),
            )
            &&& entries[b + 2] == (encode_utf8("pieces"@), Node::Str(info.pieces))
            &&& info.private matches Some(private) ==> entries[b + 3] == (
                encode_utf8("private"@),
                Node::Int(false, private as nat),
            )
            &&& keys_ascend(entries)
            &&& distinct_keys(entries)
        }),
{
    lemma_keys();
    let entries = info_node(info)->Dict_0;
    let a: int = if info.files is Some {
        1
    } else {
        0
    };
    let b: int = a + if info.length is Some {
        1int
    } else {
        0int
    };
    assert(keys_ascend(entries)) by {
        assert forall|i: int, j: int| 0 <= i < j < entries.len() implies comes_before(
            (#[trigger] entries[i]).0,
            (#[trigger] entries[j]).0,
        ) by {
            assert(i < a || (a <= i < b) || i == b || i == b + 1 || i == b + 2 || i == b + 3);
            assert(j < a || (a <= j < b) || j == b || j == b + 1 || j == b + 2 || j == b + 3);
        }
    }
    lemma_ascending_keys_differ(entries);
}

proof fn lemma_written_info(info: InfoView)
    requires
        numbers_fit(info),
    ensures
        is_info(view_of(info_node(info)), info),
{
    lemma_info_entries(info);
    let entries = info_node(info)->Dict_0;
    lemma_dict_view(entries);
    let map = entry_map(entry_views(entries));
    let a: int = if info.files is Some {
        1
    } else {
        0
    };
    let b: int = a + if info.length is Some {
        1int
    } else {
        0int
    };
    encode_utf8_valid_utf8("files"@);
    encode_utf8_valid_utf8("length"@);
    encode_utf8_valid_utf8("name"@);
    encode_utf8_valid_utf8("piece length"@);
    encode_utf8_valid_utf8("pieces"@);
    encode_utf8_valid_utf8("private"@);
    assert(map.dom().contains(entries[b].0));
    assert(map.dom().contains(entries[b + 1].0));
    assert(map.dom().contains(entries[b + 2].0));
    assert forall|key: Seq<u8>| #[trigger] map.dom().contains(key) implies {
        ||| key == encode_utf8("files"@) && info.files is Some
        ||| key == encode_utf8("length"@) && info.length is Some
        ||| key == encode_utf8("name"@)
        ||| key == encode_utf8("piece length"@)
        ||| key == encode_utf8("pieces"@)
        ||| key == encode_utf8("private"@) && info.private is Some
    } by {
        let i = choose|i: int| 0 <= i < entries.len() && (#[trigger] entries[i]).0 == key;
        assert(i < a || (a <= i < b) || i == b || i == b + 1 || i == b + 2 || i == b + 3);
    }
    lemma_keys();
    lemma_before_differs(encode_utf8("files"@), encode_utf8("length"@));
    lemma_before_differs(encode_utf8("files"@), encode_utf8("name"@));
    lemma_before_differs(encode_utf8("files"@), encode_utf8("piece length"@));
    lemma_before_differs(encode_utf8("files"@), encode_utf8("pieces"@));
    lemma_before_differs(encode_utf8("files"@), encode_utf8("private"@));
    lemma_before_differs(encode_utf8("length"@), encode_utf8("name"@));
    lemma_before_differs(encode_utf8("length"@), encode_utf8("piece length"@));
    lemma_before_differs(encode_utf8("length"@), encode_utf8("pieces"@));
    lemma_before_differs(encode_utf8("length"@), encode_utf8("private"@));
    lemma_before_differs(encode_utf8("name"@), encode_utf8("private"@));
    lemma_before_differs(encode_utf8("piece length"@), encode_utf8("private"@));
    lemma_before_differs(encode_utf8("pieces"@), encode_utf8("private"@));
    assert forall|key: Seq<u8>| map.dom().contains(key) implies #[trigger] valid_utf8(key) by {
        assert(map.dom().contains(key));
    }
    match info.files {
        Some(files) => {
            assert(map.dom().contains(entries[0].0));
            let items = Seq::new(files.len(), |i: int| file_node(files[i]));
            lemma_views_of(items);
            assert forall|i: int| 0 <= i < files.len() implies is_file(
                #[trigger] views_of(items)[i],
                files[i],
            ) by {
                assert(files[i].length <= i64::MAX);
                lemma_file(files[i]);
                assert(items[i] == file_node(files[i]));
            }
        },
        None => {
            assert(!map.dom().contains(encode_utf8("files"@)));
        },
    }
    match info.length {
        Some(length) => {
            assert(map.dom().contains(entries[a].0));
        },
        None => {
            assert(!map.dom().contains(encode_utf8("length"@)));
        },
    }
    match info.private {
        Some(private) => {
            assert(map.dom().contains(entries[b + 3].0));
        },
        None => {
            assert(!map.dom().contains(encode_utf8("private"@)));
        },
    }
}

/// An info dictionary is written as a dictionary of bencode that says just what it is: every field
/// that it has under its key, no field that it has not, and the keys in order. (Where its numbers
/// fit in 63 bits, as bencode numbers are read.)
pub proof fn law_info_is_written_as_it_is(info: &Info, bytes: Vec<u8>)
    requires
        call_ensures(Info::to_bencode, (info,), bytes),
        numbers_fit(info@),
    ensures
        exists|entries: Seq<(Seq<u8>, Node)>|
            {
                &&& bytes@ == #[trigger] node_bytes(Node::Dict(entries))
                &&& is_info(view_of(Node::Dict(entries)), info@)
                &&& keys_ascend(entries)
                &&& entries.len() == 3 + (if info@.files is Some {
                    1int
                } else {
                    0int
                }) + (if info@.length is Some {
                    1int
                } else {
                    0int
                }) + (if info@.private is Some {
                    1int
                } else {
                    0int
                })
            },
{
    law_info_encoding_is_canonical(info@);
    lemma_info_entries(info@);
    lemma_written_info(info@);
    let entries = info_node(info@)->Dict_0;
    assert(node_bytes(Node::Dict(entries)) == bytes@);
}

/// Whether what is read of `node` is read as it is written.
pub open spec fn reads_truly(node: Node, level: Level) -> bool
    decreases level.depth(),
{
    match node {
        Node::Dict(entries) if level != Level::Files => forall|i: int|
            0 <= i < entries.len() && is_known(level, (#[trigger] entries[i]).0) ==> (if level
                == Level::Torrent && entries[i].0 == encode_utf8("info"@) {
                reads_truly(entries[i].1, Level::Info)
            } else if level == Level::Info && entries[i].0 == encode_utf8("files"@) {
                reads_truly(entries[i].1, Level::Files)
            } else {
                bencode_parse(node_bytes(entries[i].1)) == Some(view_of(entries[i].1))
            }),
        Node::List(items) if level == Level::Files => forall|i: int|
            0 <= i < items.len() ==> reads_truly(#[trigger] items[i], Level::File),
        _ => bencode_parse(node_bytes(node)) == Some(view_of(node)),
    }
}

proof fn lemma_held_file(value: BencodeView, file: FileEntryView)
    requires
        file.length <= i64::MAX,
        holds(value, file_node(file), Level::File),
        reads_truly(file_node(file), Level::File),
    ensures
        value == view_of(file_node(file)),
{
    lemma_file(file);
    let entries = file_node(file)->Dict_0;
    lemma_ascending_keys_differ(entries);
    lemma_dict_view(entries);
    let map = value->Dict_0;
    let other = entry_map(entry_views(entries));
    assert forall|key: Seq<u8>| #[trigger] map.dom().contains(key) <==> other.dom().contains(
        key,
    ) by {
        if map.dom().contains(key) {
            let i = choose|i: int| 0 <= i < entries.len() && (#[trigger] entries[i]).0 == key;
            assert(other.dom().contains(entries[i].0));
        }
        if other.dom().contains(key) {
            let i = choose|i: int| 0 <= i < entries.len() && (#[trigger] entries[i]).0 == key;
            assert(map.dom().contains(entries[i].0));
        }
    }
    assert forall|key: Seq<u8>| #[trigger] map.dom().contains(key) implies map[key]
        == other[key] by {
        let i = choose|i: int| 0 <= i < entries.len() && (#[trigger] entries[i]).0 == key;
        assert(is_known(Level::File, entries[i].0));
    }
    assert(map =~= other);
}

proof fn lemma_held_info(value: BencodeView, info: InfoView)
    requires
        numbers_fit(info),
        holds(value, info_node(info), Level::Info),
        reads_truly(info_node(info), Level::Info),
    ensures
        value == view_of(info_node(info)),
{
    lemma_info_entries(info);
    let entries = info_node(info)->Dict_0;
    lemma_dict_view(entries);
    let map = value->Dict_0;
    let other = entry_map(entry_views(entries));
    let a: int = if info.files is Some {
        1
    } else {
        0
    };
    let b: int = a + if info.length is Some {
        1int
    } else {
        0int
    };
    assert forall|i: int| 0 <= i < entries.len() implies is_known(
        Level::Info,
        (#[trigger] entries[i]).0,
    ) by {
        assert(i < a || (a <= i < b) || i == b || i == b + 1 || i == b + 2 || i == b + 3);
    }
    assert forall|key: Seq<u8>| #[trigger] map.dom().contains(key) <==> other.dom().contains(
        key,
    ) by {
        if map.dom().contains(key) {
            let i = choose|i: int| 0 <= i < entries.len() && (#[trigger] entries[i]).0 == key;
            assert(other.dom().contains(entries[i].0));
        }
        if other.dom().contains(key) {
            let i = choose|i: int| 0 <= i < entries.len() && (#[trigger] entries[i]).0 == key;
            assert(map.dom().contains(entries[i].0));
        }
    }
    assert forall|key: Seq<u8>| #[trigger] map.dom().contains(key) implies map[key]
        == other[key] by {
        let i = choose|i: int| 0 <= i < entries.len() && (#[trigger] entries[i]).0 == key;
        assert(is_known(Level::Info, entries[i].0));
        if key == encode_utf8("files"@) {
            lemma_files_entry(info, i);
            let files = info.files->0;
            lemma_held_files(map[key], files);
        }
    }
    assert(map =~= other);
}

/// The file list stands in the first entry.
proof fn lemma_files_entry(info: InfoView, i: int)
    requires
        0 <= i < info_node(info)->Dict_0.len(),
        info_node(info)->Dict_0[i].0 == encode_utf8("files"@),
    ensures
        info.files is Some,
        info_node(info)->Dict_0[i].1 == files_node(info.files->0),
{
    lemma_info_entries(info);
    lemma_keys();
    let entries = info_node(info)->Dict_0;
    lemma_before_differs(encode_utf8("files"@), encode_utf8("length"@));
    lemma_before_differs(encode_utf8("files"@), encode_utf8("name"@));
    lemma_before_differs(encode_utf8("files"@), encode_utf8("piece length"@));
    lemma_before_differs(encode_utf8("files"@), encode_utf8("pieces"@));
    lemma_before_differs(encode_utf8("files"@), encode_utf8("private"@));
}

proof fn lemma_held_files(value: BencodeView, files: Seq<FileEntryView>)
    requires
        forall|i: int| 0 <= i < files.len() ==> (#[trigger] files[i]).length <= i64::MAX,
        holds(value, files_node(files), Level::Files),
        reads_truly(files_node(files), Level::Files),
    ensures
        value == view_of(files_node(files)),
{
    let items = Seq::new(files.len(), |i: int| file_node(files[i]));
    lemma_views_of(items);
    let values = value->List_0;
    assert forall|i: int| 0 <= i < items.len() implies #[trigger] values[i] == views_of(
        items,
    )[i] by {
        assert(files[i].length <= i64::MAX);
        assert(items[i] == file_node(files[i]));
        assert(holds(values[i], items[i], Level::File));
        assert(reads_truly(items[i], Level::File));
        lemma_held_file(values[i], files[i]);
    }
    assert(values =~= views_of(items));
}

proof fn lemma_no_repeats(entries: Seq<(Seq<u8>, Node)>, at: int, info: InfoView)
    requires
        numbers_fit(info),
        distinct_keys(entries),
        0 <= at < entries.len(),
        entries[at].0 == encode_utf8("info"@),
        entries[at].1 == info_node(info),
    ensures
        has_no_repeats(Node::Dict(entries), Level::Torrent),
{
    lemma_info_entries(info);
    let inner = info_node(info)->Dict_0;
    assert(has_no_repeats(info_node(info), Level::Info)) by {
        assert forall|i: int| 0 <= i < inner.len() && (#[trigger] inner[i]).0 == encode_utf8(
            "files"@,
        ) implies has_no_repeats(inner[i].1, Level::Files) by {
            lemma_files_entry(info, i);
            let files = info.files->0;
            let items = Seq::new(files.len(), |k: int| file_node(files[k]));
            assert forall|k: int| 0 <= k < items.len() implies has_no_repeats(
                #[trigger] items[k],
                Level::File,
            ) by {
                assert(files[k].length <= i64::MAX);
                lemma_file(files[k]);
                lemma_ascending_keys_differ(file_node(files[k])->Dict_0);
            }
        }
    }
    assert forall|i: int| 0 <= i < entries.len() && (#[trigger] entries[i]).0 == encode_utf8(
        "info"@,
    ) implies has_no_repeats(entries[i].1, Level::Info) by {
        if i < at {
            assert(entries[i].0 != entries[at].0);
        } else if at < i {
            assert(entries[at].0 != entries[i].0);
        }
    }
}

proof fn lemma_truly_can(node: Node, level: Level)
    requires
        reads_truly(node, level),
    ensures
        can_be_read(node, level),
    decreases level.depth(),
{
    match node {
        Node::Dict(entries) => {
            if level != Level::Files {
                assert forall|i: int|
                    0 <= i < entries.len() && is_known(level, (#[trigger] entries[i]).0) implies (
                if level == Level::Torrent && entries[i].0 == encode_utf8("info"@) {
                    can_be_read(entries[i].1, Level::Info)
                } else if level == Level::Info && entries[i].0 == encode_utf8("files"@) {
                    can_be_read(entries[i].1, Level::Files)
                } else {
                    bencode_parse(node_bytes(entries[i].1)) is Some
                }) by {
                    if level == Level::Torrent && entries[i].0 == encode_utf8("info"@) {
                        lemma_truly_can(entries[i].1, Level::Info);
                    } else if level == Level::Info && entries[i].0 == encode_utf8("files"@) {
                        lemma_truly_can(entries[i].1, Level::Files);
                    }
                }
            }
        },
        Node::List(items) => {
            if level == Level::Files {
                assert forall|i: int| 0 <= i < items.len() implies can_be_read(
                    #[trigger] items[i],
                    Level::File,
                ) by {
                    lemma_truly_can(items[i], Level::File);
                }
            }
        },
        _ => {},
    }
}

/// A torrent with nothing but an info dictionary has no other key that is read.
proof fn lemma_nothing_else(map: Entries, entries: Seq<(Seq<u8>, Node)>)
    requires
        entries.len() == 1,
        entries[0].0 == encode_utf8("info"@),
        forall|key: Seq<u8>| #[trigger]
            map.dom().contains(key) ==> exists|i: int|
                0 <= i < entries.len() && (#[trigger] entries[i]).0 == key,
    ensures
        keys_are_text(map),
        lacks(map, "announce"@),
        lacks(map, "announce-list"@),
        lacks(map, "comment"@),
        lacks(map, "created by"@),
        lacks(map, "creation date"@),
        lacks(map, "encoding"@),
{
    reveal_strlit("info");
    reveal_strlit("announce");
    reveal_strlit("announce-list");
    reveal_strlit("comment");
    reveal_strlit("created by");
    reveal_strlit("creation date");
    reveal_strlit("encoding");
    lemma_key("info"@);
    lemma_key("announce"@);
    lemma_key("announce-list"@);
    lemma_key("comment"@);
    lemma_key("created by"@);
    lemma_key("creation date"@);
    lemma_key("encoding"@);
    assert(encode_utf8("info"@)[0] == 'i' as u8);
    assert(encode_utf8("announce"@)[0] == 'a' as u8);
    assert(encode_utf8("announce-list"@)[0] == 'a' as u8);
    assert(encode_utf8("comment"@)[0] == 'c' as u8);
    assert(encode_utf8("created by"@)[0] == 'c' as u8);
    assert(encode_utf8("creation date"@)[0] == 'c' as u8);
    assert(encode_utf8("encoding"@)[0] == 'e' as u8);
    encode_utf8_valid_utf8("info"@);
    assert forall|key: Seq<u8>| #[trigger] map.dom().contains(key) implies key == encode_utf8(
        "info"@,
    ) by {
        let i = choose|i: int| 0 <= i < entries.len() && (#[trigger] entries[i]).0 == key;
        assert(i == 0);
    }
    assert forall|key: Seq<u8>| map.dom().contains(key) implies #[trigger] valid_utf8(key) by {
        assert(map.dom().contains(key));
    }
}

/// What was written is read back: a torrent whose info dictionary holds the bytes that an info is
/// written as has exactly that info, and their digest as its info hash. It can be read wherever
/// the parser reads its values as they are written, and there is nothing else in it.
pub proof fn law_written_info_is_read_back(
    info: &Info,
    written: Vec<u8>,
    bytes: &[u8],
    entries: Seq<(Seq<u8>, Node)>,
    at: int,
    after: Seq<u8>,
    outlined: std::result::Result<Bencode, String>,
    result: Result<Metainfo>,
)
    requires
        numbers_fit(info@),
        call_ensures(Info::to_bencode, (info,), written),
        bytes@ == node_bytes(Node::Dict(entries)) + after,
        bytes@.len() <= usize::MAX,
        distinct_keys(entries),
        0 <= at < entries.len(),
        entries[at].0 == encode_utf8("info"@),
        entries[at].1 == info_node(info@),
        call_ensures(read_outline, (bytes,), outlined),
        call_ensures(Metainfo::from_bytes, (bytes,), result),
    ensures
        node_bytes(entries[at].1) == written@,
        bencode_readable(bytes@) && reads_truly(Node::Dict(entries), Level::Torrent) ==> {
            &&& result matches Ok(found) ==> {
                &&& found@.info == info@
                &&& found@.raw_info_hash == Some(sha1_of(written@))
            }
            &&& entries.len() == 1 ==> result is Ok
        },
{
    law_info_encoding_is_canonical(info@);
    let node = Node::Dict(entries);
    lemma_no_repeats(entries, at, info@);
    law_known_values_are_read(bytes, entries, after, outlined);
    if bencode_readable(bytes@) && reads_truly(node, Level::Torrent) {
        assert(is_known(Level::Torrent, entries[at].0));
        assert(reads_truly(info_node(info@), Level::Info));
        match outlined {
            Ok(value) => {
                let map = value.view()->Dict_0;
                assert(map.dom().contains(entries[at].0));
                assert(holds(map[entries[at].0], info_node(info@), Level::Info));
                lemma_held_info(map[entries[at].0], info@);
                lemma_written_info(info@);
                assert(is_info(map[encode_utf8("info"@)], info@));
                let bare = MetainfoView {
                    announce: None,
                    announce_list: None,
                    info: info@,
                    comment: None,
                    created_by: None,
                    creation_date: None,
                    encoding: None,
                    raw_info_hash: None,
                };
                law_torrents_are_read_off_their_bytes(
                    bytes,
                    entries,
                    at,
                    after,
                    outlined,
                    result,
                    bare,
                );
                match result {
                    Ok(found) => {
                        let read = MetainfoView { raw_info_hash: None, ..found@ };
                        law_torrents_are_read_off_their_bytes(
                            bytes,
                            entries,
                            at,
                            after,
                            outlined,
                            result,
                            read,
                        );
                        assert(is_torrent(value.view(), read));
                        lemma_info(map[encode_utf8("info"@)], info@);
                        lemma_info(map[encode_utf8("info"@)], found@.info);
                    },
                    Err(_) => {
                        if entries.len() == 1 {
                            lemma_nothing_else(map, entries);
                            assert(is_torrent(value.view(), bare));
                        }
                    },
                }
            },
            Err(_) => {
                lemma_truly_can(node, Level::Torrent);
            },
        }
    }
}

} // verus!
