//! The info dictionary that a torrent with no unknown keys carries.

use vstd::prelude::*;
use vstd::utf8::encode_utf8;
use crate::bencode::{encoded_number, encoded_text, DICT, END, LIST};
use crate::metainfo::{
    encoded_entry, encoded_file, encoded_files, encoded_info, encoded_path, files_entry,
    md5sum_entry, optional_number_entry, FileEntryView, InfoView,
};
use crate::span::{
    dict_bytes, info_key, info_span, law_raw_info_is_exact, list_bytes, node_bytes, Node,
};

verus! {

/// A text as a value.
pub open spec fn text_node(text: Seq<char>) -> Node {
    Node::Str(encode_utf8(text))
}

/// A number as a value.
pub open spec fn number_node(n: nat) -> Node {
    Node::Int(false, n)
}

/// One dictionary entry.
pub open spec fn entry(key: Seq<char>, value: Node) -> Seq<(Seq<u8>, Node)> {
    seq![(encode_utf8(key), value)]
}

/// A path as a value.
pub open spec fn path_node(path: Seq<Seq<char>>) -> Node {
    Node::List(Seq::new(path.len(), |i: int| text_node(path[i])))
}

/// A file entry as a value.
pub open spec fn file_node(file: FileEntryView) -> Node {
    Node::Dict(
        entry("length"@, number_node(file.length as nat)) + (match file.md5sum {
            Some(md5sum) => entry("md5sum"@, text_node(md5sum)),
            None => Seq::empty(),
        }) + entry("path"@, path_node(file.path)),
    )
}

/// A file list as a value.
pub open spec fn files_node(files: Seq<FileEntryView>) -> Node {
    Node::List(Seq::new(files.len(), |i: int| file_node(files[i])))
}

/// The info dictionary as a value: the keys that are modeled, in sorted order, and no others.
pub open spec fn info_node(info: InfoView) -> Node {
    Node::Dict(
        (match info.files {
            Some(files) => entry("files"@, files_node(files)),
            None => Seq::empty(),
        }) + (match info.length {
            Some(length) => entry("length"@, number_node(length as nat)),
            None => Seq::empty(),
        }) + entry("name"@, text_node(info.name)) + entry(
            "piece length"@,
            number_node(info.piece_length as nat),
        ) + entry("pieces"@, Node::Str(info.pieces)) + (match info.private {
            Some(private) => entry("private"@, number_node(private as nat)),
            None => Seq::empty(),
        }),
    )
}

proof fn lemma_dict_bytes_concat(a: Seq<(Seq<u8>, Node)>, b: Seq<(Seq<u8>, Node)>)
    ensures
        dict_bytes(a + b) == dict_bytes(a) + dict_bytes(b),
    decreases a.len(),
{
    if a.len() == 0 {
        assert(a + b =~= b);
        assert(dict_bytes(a) + dict_bytes(b) =~= dict_bytes(b));
    } else {
        let tail = a.subrange(1, a.len() as int);
        lemma_dict_bytes_concat(tail, b);
        assert((a + b).subrange(1, (a + b).len() as int) =~= tail + b);
        assert(dict_bytes(a + b) =~= dict_bytes(a) + dict_bytes(b));
    }
}

proof fn lemma_list_bytes_push(items: Seq<Node>, item: Node)
    ensures
        list_bytes(items.push(item)) == list_bytes(items) + node_bytes(item),
    decreases items.len(),
{
    let all = items.push(item);
    if items.len() == 0 {
        assert(all.subrange(1, all.len() as int) =~= items);
        assert(list_bytes(all) =~= list_bytes(items) + node_bytes(item));
    } else {
        let tail = items.subrange(1, items.len() as int);
        lemma_list_bytes_push(tail, item);
        assert(all.subrange(1, all.len() as int) =~= tail.push(item));
        assert(list_bytes(all) =~= list_bytes(items) + node_bytes(item));
    }
}

proof fn lemma_entry_bytes(key: Seq<char>, value: Node)
    ensures
        dict_bytes(entry(key, value)) == encoded_entry(key, node_bytes(value)),
{
    let entries = entry(key, value);
    assert(entries.subrange(1, entries.len() as int) =~= Seq::<(Seq<u8>, Node)>::empty());
    assert(dict_bytes(Seq::empty()) == Seq::<u8>::empty());
    assert(dict_bytes(entries) =~= encoded_entry(key, node_bytes(value)));
}

proof fn lemma_number_bytes(n: nat)
    ensures
        node_bytes(number_node(n)) == encoded_number(n),
{
    assert(node_bytes(number_node(n)) =~= encoded_number(n));
}

proof fn lemma_path_bytes(path: Seq<Seq<char>>)
    ensures
        node_bytes(path_node(path)) == seq![LIST] + encoded_path(path) + seq![END],
    decreases path.len(),
{
    let items = Seq::new(path.len(), |i: int| text_node(path[i]));
    if path.len() == 0 {
        assert(list_bytes(items) =~= encoded_path(path));
    } else {
        let front = path.drop_last();
        let front_items = Seq::new(front.len(), |i: int| text_node(front[i]));
        lemma_path_bytes(front);
        assert(items =~= front_items.push(text_node(path.last())));
        lemma_list_bytes_push(front_items, text_node(path.last()));
        lemma_unwrap(list_bytes(front_items), encoded_path(front));
    }
}

/// Equal lists have equal items.
proof fn lemma_unwrap(a: Seq<u8>, b: Seq<u8>)
    requires
        seq![LIST] + a + seq![END] == seq![LIST] + b + seq![END],
    ensures
        a == b,
{
    let x = seq![LIST] + a + seq![END];
    let y = seq![LIST] + b + seq![END];
    assert(x.subrange(1, x.len() - 1) =~= a);
    assert(y.subrange(1, y.len() - 1) =~= b);
}

proof fn lemma_file_bytes(file: FileEntryView)
    ensures
        node_bytes(file_node(file)) == encoded_file(file),
{
    let length = entry("length"@, number_node(file.length as nat));
    let md5sum = match file.md5sum {
        Some(md5sum) => entry("md5sum"@, text_node(md5sum)),
        None => Seq::empty(),
    };
    let path = entry("path"@, path_node(file.path));
    lemma_dict_bytes_concat(length + md5sum, path);
    lemma_dict_bytes_concat(length, md5sum);
    lemma_entry_bytes("length"@, number_node(file.length as nat));
    lemma_number_bytes(file.length as nat);
    lemma_entry_bytes("path"@, path_node(file.path));
    lemma_path_bytes(file.path);
    match file.md5sum {
        Some(md5) => lemma_entry_bytes("md5sum"@, text_node(md5)),
        None => {},
    }
    lemma_file_groups(
        encoded_entry("length"@, encoded_number(file.length as nat)),
        md5sum_entry(file.md5sum),
        encoded_text("path"@),
        encoded_path(file.path),
    );
}

proof fn lemma_file_groups(length: Seq<u8>, md5sum: Seq<u8>, key: Seq<u8>, path: Seq<u8>)
    ensures
        seq![DICT] + (length + md5sum + (key + (seq![LIST] + path + seq![END]))) + seq![END]
            == seq![DICT] + length + md5sum + (key + seq![LIST] + path + seq![END]) + seq![END],
{
    assert(key + (seq![LIST] + path + seq![END]) =~= key + seq![LIST] + path + seq![END]);
    let entry = key + seq![LIST] + path + seq![END];
    assert(seq![DICT] + (length + md5sum + entry) =~= seq![DICT] + length + md5sum + entry);
}

proof fn lemma_files_bytes(files: Seq<FileEntryView>)
    ensures
        node_bytes(files_node(files)) == seq![LIST] + encoded_files(files) + seq![END],
    decreases files.len(),
{
    let items = Seq::new(files.len(), |i: int| file_node(files[i]));
    if files.len() == 0 {
        assert(list_bytes(items) =~= encoded_files(files));
    } else {
        let front = files.drop_last();
        let front_items = Seq::new(front.len(), |i: int| file_node(front[i]));
        lemma_files_bytes(front);
        assert(items =~= front_items.push(file_node(files.last())));
        lemma_list_bytes_push(front_items, file_node(files.last()));
        lemma_file_bytes(files.last());
        lemma_unwrap(list_bytes(front_items), encoded_files(front));
    }
}

/// Serializing an info dictionary writes exactly its modeled keys, in sorted order.
pub proof fn law_info_encoding_is_canonical(info: InfoView)
    ensures
        node_bytes(info_node(info)) == encoded_info(info),
{
    let files = match info.files {
        Some(files) => entry("files"@, files_node(files)),
        None => Seq::empty(),
    };
    let length = match info.length {
        Some(length) => entry("length"@, number_node(length as nat)),
        None => Seq::empty(),
    };
    let name = entry("name"@, text_node(info.name));
    let piece_length = entry("piece length"@, number_node(info.piece_length as nat));
    let pieces = entry("pieces"@, Node::Str(info.pieces));
    let private = match info.private {
        Some(private) => entry("private"@, number_node(private as nat)),
        None => Seq::empty(),
    };
    lemma_dict_bytes_concat(files + length + name + piece_length + pieces, private);
    lemma_dict_bytes_concat(files + length + name + piece_length, pieces);
    lemma_dict_bytes_concat(files + length + name, piece_length);
    lemma_dict_bytes_concat(files + length, name);
    lemma_dict_bytes_concat(files, length);
    match info.files {
        Some(list) => {
            lemma_entry_bytes("files"@, files_node(list));
            lemma_files_bytes(list);
        },
        None => {},
    }
    match info.length {
        Some(n) => {
            lemma_entry_bytes("length"@, number_node(n as nat));
            lemma_number_bytes(n as nat);
        },
        None => {},
    }
    lemma_entry_bytes("name"@, text_node(info.name));
    lemma_entry_bytes("piece length"@, number_node(info.piece_length as nat));
    lemma_number_bytes(info.piece_length as nat);
    lemma_entry_bytes("pieces"@, Node::Str(info.pieces));
    match info.private {
        Some(n) => {
            lemma_entry_bytes("private"@, number_node(n as nat));
            lemma_number_bytes(n as nat);
        },
        None => {},
    }
    assert(dict_bytes(files) == files_entry(info.files));
    assert(dict_bytes(length) == optional_number_entry(
        "length"@,
        match info.length {
            Some(length) => Some(length as nat),
            None => None,
        },
    ));
    assert(dict_bytes(private) == optional_number_entry(
        "private"@,
        match info.private {
            Some(private) => Some(private as nat),
            None => None,
        },
    ));
    lemma_regroup(
        seq![DICT],
        dict_bytes(files),
        dict_bytes(length),
        dict_bytes(name),
        dict_bytes(piece_length),
        dict_bytes(pieces),
        dict_bytes(private),
    );
}

proof fn lemma_regroup(
    a: Seq<u8>,
    b: Seq<u8>,
    c: Seq<u8>,
    d: Seq<u8>,
    e: Seq<u8>,
    f: Seq<u8>,
    g: Seq<u8>,
)
    ensures
        a + (b + c + d + e + f + g) == a + b + c + d + e + f + g,
{
    assert(a + (b + c + d + e + f + g) =~= a + b + c + d + e + f + g);
}

/// Where a torrent's info dictionary holds the modeled keys in sorted order and no others, its
/// raw bytes are what re-serializing the typed info gives, so both have one info hash.
pub proof fn law_reserialized_info_hash_agrees(
    entries: Seq<(Seq<u8>, Node)>,
    at: int,
    info: InfoView,
    after: Seq<u8>,
)
    requires
        0 <= at < entries.len(),
        entries[at] == (info_key(), info_node(info)),
        forall|i: int| 0 <= i < at ==> (#[trigger] entries[i]).0 != info_key(),
        node_bytes(Node::Dict(entries)).len() + after.len() <= usize::MAX,
    ensures
        ({
            let buf = node_bytes(Node::Dict(entries)) + after;
            &&& info_span(buf) matches Ok((start, end))
            &&& 0 <= start <= end <= buf.len()
            &&& buf.subrange(start, end) == encoded_info(info)
        }),
{
    law_raw_info_is_exact(entries, at, after);
    law_info_encoding_is_canonical(info);
}

} // verus!
