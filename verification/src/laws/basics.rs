//! Numbers, text and bytes, and small answers.

use vstd::prelude::*;
use vstd::utf8::encode_utf8;
use bytes::BytesMut;
use crate::bencode::{
    entries_view, lookup, push_bytes, push_number, push_text, same_bytes, Bencode, BencodeView,
};
use crate::bigendian::{
    be_bytes, lemma_be_limits, lemma_be_value_2, lemma_be_value_of_bytes, push_u16, push_u32,
    push_u64, read_u128, read_u16, read_u32, read_u64,
};
use crate::buffer::buffered;
use crate::decode::Entries;
use crate::digest::sha1_of;
use crate::download::bitfield::Bitfield;
use crate::download::coordinator::Coordinator;
use crate::download::piece::Geometry;
use crate::download::state::PieceTracker;
use crate::download::stats::SwarmStats;
use crate::error::Result;
use crate::laws::{lemma_hex, reads_as_hex};
use crate::keyed::entry_map;
use crate::laws::announcing::{lemma_decimal, reads_as_decimal, u16_at};
use crate::laws::exchange::{lemma_u64_at, u64_at};
use crate::laws::reading::{has_entry, lacks};
use crate::laws::torrent::{is_plain_name, lemma_plain_name};
use crate::laws::wire::{lemma_u32_at, u32_at};
use crate::metainfo::{holds_char, raw_info_hash, validate_path_component, Info, InfoHash, Metainfo};
use crate::peer::{shown_byte, shown_bytes, PeerId};
use crate::peer::handshake::{same_20, take_20};
use crate::peer::message::{low_u32, Message, PeerCodec};
use crate::registry::{Record, Registry};
use crate::span::{
    extract_raw_info, law_raw_info_is_exact, lemma_value_span, node_bytes, skip_value, Node,
};
use crate::text::{decimal, hex, push_decimal, push_hex};
use crate::tracker::{dict_int, AnnounceResponse};

verus! {

// Numbers.

/// Numbers are read with their highest byte first.
pub proof fn law_numbers_are_read(
    bytes: &[u8],
    at: usize,
    two: u16,
    four: u32,
    eight: u64,
    sixteen: u128,
)
    requires
        call_ensures(read_u16, (bytes, at), two),
        call_ensures(read_u32, (bytes, at), four),
        call_ensures(read_u64, (bytes, at), eight),
        call_ensures(read_u128, (bytes, at), sixteen),
        at + 16 <= bytes@.len(),
    ensures
        two == u16_at(bytes@, at as int),
        four == u32_at(bytes@, at as int),
        eight == u64_at(bytes@, at as int),
        sixteen == u64_at(bytes@, at as int) * 0x1_0000_0000_0000_0000 + u64_at(bytes@, at + 8),
{
    lemma_be_value_2(bytes@.subrange(at as int, at + 2));
    lemma_u32_at(bytes@, at as int);
    lemma_u64_at(bytes@, at as int);
    lemma_u64_at(bytes@, at + 8);
    let high = bytes@.subrange(at as int, at + 8);
    let low = bytes@.subrange(at + 8, at + 16);
    crate::bigendian::lemma_be_value_split(high, low);
    lemma_be_limits();
    assert(bytes@.subrange(at as int, at + 16) =~= high + low);
}

/// Numbers are written behind what is there, with their highest byte first.
pub proof fn law_numbers_are_written(
    a: &mut Vec<u8>,
    two: u16,
    first: (),
    b: &mut Vec<u8>,
    four: u32,
    second: (),
    c: &mut Vec<u8>,
    eight: u64,
    third: (),
)
    requires
        call_ensures(push_u16, (a, two), first),
        call_ensures(push_u32, (b, four), second),
        call_ensures(push_u64, (c, eight), third),
    ensures
        final(a)@.len() == old(a)@.len() + 2,
        old(a)@.is_prefix_of(final(a)@),
        u16_at(final(a)@, old(a)@.len() as int) == two,
        final(b)@.len() == old(b)@.len() + 4,
        old(b)@.is_prefix_of(final(b)@),
        u32_at(final(b)@, old(b)@.len() as int) == four,
        final(c)@.len() == old(c)@.len() + 8,
        old(c)@.is_prefix_of(final(c)@),
        u64_at(final(c)@, old(c)@.len() as int) == eight,
{
    lemma_be_limits();
    lemma_be_value_of_bytes(two as nat, 2);
    lemma_be_value_of_bytes(four as nat, 4);
    lemma_be_value_of_bytes(eight as nat, 8);
    let (n, m, k) = (old(a)@.len() as int, old(b)@.len() as int, old(c)@.len() as int);
    assert(final(a)@.subrange(n, n + 2) =~= be_bytes(two as nat, 2));
    assert(final(b)@.subrange(m, m + 4) =~= be_bytes(four as nat, 4));
    assert(final(c)@.subrange(k, k + 8) =~= be_bytes(eight as nat, 8));
    lemma_be_value_2(final(a)@.subrange(n, n + 2));
    lemma_u32_at(final(b)@, m);
    lemma_u64_at(final(c)@, k);
}

/// Only the low 32 bits of a length are kept.
pub proof fn law_low_bits_are_kept(len: usize, low: u32)
    requires
        call_ensures(low_u32, (len,), low),
    ensures
        len <= u32::MAX ==> low == len,
        low == len as int % 0x1_0000_0000,
{
}

// Text.

/// A number is written in decimal and bytes in hexadecimal, behind what is there.
pub proof fn law_text_is_written(
    a: &mut String,
    n: u64,
    first: (),
    b: &mut String,
    bytes: &[u8],
    second: (),
)
    requires
        call_ensures(push_decimal, (a, n), first),
        call_ensures(push_hex, (b, bytes), second),
    ensures
        old(a)@.is_prefix_of(final(a)@),
        reads_as_decimal(final(a)@.skip(old(a)@.len() as int), n as int),
        old(b)@.is_prefix_of(final(b)@),
        reads_as_hex(final(b)@.skip(old(b)@.len() as int), bytes@),
{
    lemma_decimal(n as nat);
    lemma_hex(bytes@);
    assert(final(a)@.skip(old(a)@.len() as int) =~= decimal(n as nat));
    assert(final(b)@.skip(old(b)@.len() as int) =~= hex(bytes@));
}

/// Values are written in bencode behind what is there: a number between its two letters, a byte
/// string behind its length, and a text as the byte string of its UTF-8 form.
pub proof fn law_values_are_written(
    a: &mut Vec<u8>,
    n: u64,
    first: (),
    b: &mut Vec<u8>,
    bytes: &[u8],
    second: (),
    c: &mut Vec<u8>,
    text: &str,
    third: (),
)
    requires
        call_ensures(push_number, (a, n), first),
        call_ensures(push_bytes, (b, bytes), second),
        call_ensures(push_text, (c, text), third),
    ensures
        final(a)@ == old(a)@ + node_bytes(Node::Int(false, n as nat)),
        final(b)@ == old(b)@ + node_bytes(Node::Str(bytes@)),
        final(c)@ == old(c)@ + node_bytes(Node::Str(encode_utf8(text@))),
{
    assert(node_bytes(Node::Int(false, n as nat)) =~= crate::bencode::encoded_number(n as nat));
}

/// Whether a name is accepted as part of a path: it is one that cannot lead out of its directory.
pub proof fn law_only_plain_names_are_accepted(name: &str, result: Result<()>)
    requires
        call_ensures(validate_path_component, (name,), result),
    ensures
        result is Ok <==> is_plain_name(name@),
        result matches Err(error) ==> error@ is MalformedTorrent,
{
    lemma_plain_name(name@);
}

/// A character is found just where it stands in the text.
pub proof fn law_characters_are_found(text: &str, wanted: char, found: bool)
    requires
        call_ensures(holds_char, (text, wanted), found),
    ensures
        found <==> exists|i: int| 0 <= i < text@.len() && #[trigger] text@[i] == wanted,
{
}

/// A peer id is shown byte by byte: printable ASCII as it is, everything else as its value in two
/// hexadecimal digits behind `\x`.
pub proof fn law_peer_ids_are_shown(id: &PeerId, text: String) -> (parts: Seq<Seq<char>>)
    requires
        call_ensures(PeerId::to_string, (id,), text),
    ensures
        parts.len() == id@.len(),
        text@ == all_of(parts),
        forall|i: int| 0 <= i < parts.len() ==> shows_byte(#[trigger] parts[i], id@[i]),
{
    let parts = Seq::new(id@.len(), |i: int| shown_byte(id@[i]));
    lemma_shown(id@);
    assert forall|i: int| 0 <= i < parts.len() implies shows_byte(#[trigger] parts[i], id@[i]) by {
        lemma_shown_byte(id@[i]);
    }
    parts
}

/// The parts, one after another.
pub open spec fn all_of(parts: Seq<Seq<char>>) -> Seq<char>
    decreases parts.len(),
{
    if parts.len() == 0 {
        Seq::empty()
    } else {
        all_of(parts.drop_last()) + parts.last()
    }
}

/// Whether `text` shows a byte.
pub open spec fn shows_byte(text: Seq<char>, byte: u8) -> bool {
    if 0x20 <= byte <= 0x7e {
        text == seq![byte as char]
    } else {
        &&& text.len() == 4
        &&& text[0] == '\\'
        &&& text[1] == 'x'
        &&& reads_as_hex(text.skip(2), seq![byte])
    }
}

proof fn lemma_shown_byte(byte: u8)
    ensures
        shows_byte(shown_byte(byte), byte),
{
    let text = shown_byte(byte);
    if !(0x20 <= byte <= 0x7e) {
        lemma_hex(seq![byte]);
        reveal_with_fuel(hex, 2);
        assert(seq![byte].drop_last() =~= Seq::<u8>::empty());
        assert(text.skip(2) =~= hex(seq![byte]));
    }
}

proof fn lemma_shown(bytes: Seq<u8>)
    ensures
        shown_bytes(bytes) == all_of(Seq::new(bytes.len(), |i: int| shown_byte(bytes[i]))),
    decreases bytes.len(),
{
    let parts = Seq::new(bytes.len(), |i: int| shown_byte(bytes[i]));
    if bytes.len() > 0 {
        let front = bytes.drop_last();
        lemma_shown(front);
        assert(parts.drop_last() =~= Seq::new(front.len(), |i: int| shown_byte(front[i])));
    }
}

// Bytes.

/// Byte strings are the same just where they have the same bytes.
pub proof fn law_same_bytes_are_told(
    a: &[u8],
    b: &[u8],
    same: bool,
    c: &[u8; 20],
    d: &[u8; 20],
    equal: bool,
)
    requires
        call_ensures(same_bytes, (a, b), same),
        call_ensures(same_20, (c, d), equal),
    ensures
        same <==> a@.len() == b@.len() && forall|i: int|
            0 <= i < a@.len() ==> #[trigger] a@[i] == b@[i],
        equal <==> forall|i: int| 0 <= i < 20 ==> #[trigger] c@[i] == d@[i],
{
    if a@.len() == b@.len() && forall|i: int| 0 <= i < a@.len() ==> #[trigger] a@[i] == b@[i] {
        assert(a@ =~= b@);
    }
    if forall|i: int| 0 <= i < 20 ==> #[trigger] c@[i] == d@[i] {
        assert(c@ =~= d@);
    }
}

/// Twenty bytes are taken from where they stand, and the bytes of an id or a hash are handed out
/// as they are.
pub proof fn law_twenty_bytes_are_taken(
    bytes: &[u8],
    at: usize,
    taken: [u8; 20],
    hash: &InfoHash,
    hash_bytes: &[u8; 20],
    id: &PeerId,
    id_bytes: &[u8; 20],
)
    requires
        call_ensures(take_20, (bytes, at), taken),
        at + 20 <= bytes@.len(),
        call_ensures(InfoHash::as_bytes, (hash,), hash_bytes),
        call_ensures(PeerId::as_bytes, (id,), id_bytes),
    ensures
        forall|k: int| 0 <= k < 20 ==> #[trigger] taken@[k] == bytes@[at + k],
        hash_bytes@ == hash@,
        id_bytes@ == id@,
{
}

/// A value of bencode is passed over to its end, wherever it stands.
pub proof fn law_values_are_passed_over(
    bytes: &[u8],
    before: Seq<u8>,
    node: Node,
    after: Seq<u8>,
    at: usize,
    result: Result<usize>,
)
    requires
        bytes@ == before + node_bytes(node) + after,
        bytes@.len() <= usize::MAX,
        at == before.len(),
        call_ensures(skip_value, (bytes, at), result),
    ensures
        result matches Ok(end) && end == before.len() + node_bytes(node).len(),
{
    lemma_value_span(before, node, after);
}

/// The raw info dictionary of a torrent is its bytes, all of them and no others, and the info hash
/// is their digest.
pub proof fn law_raw_info_is_cut_out(
    bytes: &[u8],
    entries: Seq<(Seq<u8>, Node)>,
    at: int,
    after: Seq<u8>,
    result: Result<&[u8]>,
    hash: Result<InfoHash>,
)
    requires
        bytes@ == node_bytes(Node::Dict(entries)) + after,
        bytes@.len() <= usize::MAX,
        0 <= at < entries.len(),
        entries[at].0 == encode_utf8("info"@),
        forall|i: int| 0 <= i < at ==> (#[trigger] entries[i]).0 != encode_utf8("info"@),
        call_ensures(extract_raw_info, (bytes,), result),
        call_ensures(raw_info_hash, (bytes,), hash),
    ensures
        result matches Ok(info) && info@ == node_bytes(entries[at].1),
        hash matches Ok(hash) && hash@ == sha1_of(node_bytes(entries[at].1)),
{
    crate::laws::source::lemma_info_key();
    law_raw_info_is_exact(entries, at, after);
}

// Lists.

/// A new list has no torrents, and a list shows each of its torrents once.
pub proof fn law_all_torrents_are_shown(
    registry: Registry,
    probe: &Registry,
    n: usize,
    records: Vec<Record>,
)
    requires
        call_ensures(Registry::new, (), registry),
        call_ensures(Registry::len, (probe,), n),
        call_ensures(Registry::records, (probe,), records),
    ensures
        forall|id: Seq<char>| !#[trigger] registry@.dom().contains(id),
        n == probe@.dom().len(),
        n == records@.len(),
        forall|i: int|
            0 <= i < records@.len() ==> probe@.dom().contains((#[trigger] records@[i])@.id)
                && probe@[records@[i]@.id].record == records@[i]@,
        forall|i: int, j: int|
            0 <= i < j < records@.len() ==> (#[trigger] records@[i])@.id != (
            #[trigger] records@[j])@.id,
{
}

/// A download hands out its own pieces, statistics, sizes and ids.
pub proof fn law_downloads_hand_out_their_parts(
    download: &Coordinator,
    tracker: &PieceTracker,
    stats: &SwarmStats,
    geometry: Geometry,
    info_hash: InfoHash,
    peer_id: PeerId,
)
    requires
        call_ensures(Coordinator::tracker, (download,), tracker),
        call_ensures(Coordinator::stats, (download,), stats),
        call_ensures(Coordinator::geometry, (download,), geometry),
        call_ensures(Coordinator::info_hash, (download,), info_hash),
        call_ensures(Coordinator::peer_id, (download,), peer_id),
    ensures
        tracker@ == download@.tracker,
        stats@ == download@.stats,
        geometry@ == download@.geometry,
        info_hash@ == download@.info_hash,
        peer_id@ == download@.peer_id,
{
}

// Copies and lookups.

/// A copy is like what it was made of.
pub proof fn law_copies_are_alike(
    info: &Info,
    info_copy: Info,
    meta: &Metainfo,
    meta_copy: Metainfo,
    record: &Record,
    record_copy: Record,
    message: &Message,
    message_copy: Message,
    bitfield: &Bitfield,
    bitfield_copy: Bitfield,
    response: &AnnounceResponse,
    response_copy: AnnounceResponse,
)
    requires
        call_ensures(Info::clone, (info,), info_copy),
        call_ensures(Metainfo::clone, (meta,), meta_copy),
        call_ensures(Record::clone, (record,), record_copy),
        call_ensures(Message::clone, (message,), message_copy),
        call_ensures(Bitfield::clone, (bitfield,), bitfield_copy),
        call_ensures(AnnounceResponse::clone, (response,), response_copy),
    ensures
        info_copy@ == info@,
        meta_copy@ == meta@,
        record_copy@ == record@,
        message_copy@ == message@,
        bitfield_copy@ == bitfield@,
        response_copy@ == response@,
{
}

/// A value is found under its key just where the dictionary has one there, and a number where that
/// is a number.
pub proof fn law_values_are_found_by_key(
    entries: &Vec<(Vec<u8>, Bencode)>,
    key: &str,
    found: Option<&Bencode>,
    number: Option<i64>,
    map: Entries,
)
    requires
        call_ensures(lookup, (entries, key), found),
        call_ensures(dict_int, (entries, key), number),
        map == entry_map(entries_view(entries@)),
    ensures
        found is Some <==> !lacks(map, key@),
        found matches Some(value) ==> has_entry(map, key@, value.view()),
        number matches Some(n) ==> has_entry(map, key@, BencodeView::Int(n)),
        number is None ==> forall|n: i64| !#[trigger] has_entry(map, key@, BencodeView::Int(n)),
{
}

/// A message can be written just where the buffer can hold it behind what is there.
pub proof fn law_messages_that_can_be_written(
    codec: &mut PeerCodec,
    item: Message,
    dst: &mut BytesMut,
    result: Result<()>,
    probe: &PeerCodec,
    buffer: &BytesMut,
    ok: bool,
)
    requires
        call_ensures(PeerCodec::encode, (codec, item, dst), result),
        call_ensures(PeerCodec::can_encode, (probe, &item, buffer), ok),
        buffered(*buffer) == buffered(*old(dst)),
    ensures
        ok ==> buffered(*final(dst)).len() <= isize::MAX,
        buffered(*final(dst)).len() <= isize::MAX && buffered(*final(dst)).len() - buffered(
            *old(dst),
        ).len() <= u32::MAX ==> ok,
{
    crate::peer::message::lemma_encoded_len(item@);
}

} // verus!
