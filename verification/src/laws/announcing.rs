//! Announcing: what goes to a tracker, and what is made of its reply.

use vstd::prelude::*;
use vstd::utf8::encode_utf8;
use crate::bencode::{bencode_parse, lemma_list_view, list_view, Bencode, BencodeView};
use crate::bigendian::{
    be_value, lemma_be_limits, lemma_be_value_2, lemma_be_value_4, lemma_be_value_bound,
};
use crate::decode::Entries;
use crate::error::{outcome, Fault, Result};
use crate::laws::reading::{has_entry, lacks};
use crate::laws::wire::u32_at;
use crate::text::{decimal, lossy_text};
use crate::tracker::{
    compact_peers_v4, compact_peers_v6, parse_compact_peers_v4, parse_compact_peers_v6,
    parse_http_response, parse_peer_dicts, read_response, transport, transport_for, url_parse,
    AnnounceParams, AnnounceResponse, Event, PeerAddr, Transport, UrlParts,
};
use crate::tracker::address::{parse_ip, Ip};
use crate::tracker::http::{
    build_url, encode, event_text, law_percent_encoding_is_clean, law_percent_encoding_is_faithful,
    numwant_text, percent_decoded, percent_text, query_byte, query_text,
};

verus! {

// HTTP requests.

/// The number that a text of decimal digits denotes.
pub open spec fn decimal_read(text: Seq<char>) -> int
    decreases text.len(),
{
    if text.len() == 0 {
        0
    } else {
        decimal_read(text.drop_last()) * 10 + (text.last() as int - '0' as int)
    }
}

/// Whether `text` writes `n` in decimal, without leading zeros.
pub open spec fn reads_as_decimal(text: Seq<char>, n: int) -> bool {
    &&& text.len() > 0
    &&& forall|i: int| 0 <= i < text.len() ==> '0' <= #[trigger] text[i] <= '9'
    &&& text.len() > 1 ==> text[0] != '0'
    &&& decimal_read(text) == n
}

pub(crate) proof fn lemma_decimal(n: nat)
    ensures
        reads_as_decimal(decimal(n), n as int),
    decreases n,
{
    let text = decimal(n);
    if n < 10 {
        assert(text.len() == 1);
        assert(text.drop_last() =~= Seq::<char>::empty());
        assert(decimal_read(text) == decimal_read(text.drop_last()) * 10 + (text.last() as int
            - '0' as int));
    } else {
        let front = decimal(n / 10);
        lemma_decimal(n / 10);
        assert(text.drop_last() =~= front);
        assert(text.last() == (48 + n % 10) as u8 as char);
        assert forall|i: int| 0 <= i < text.len() implies '0' <= #[trigger] text[i] <= '9' by {
            if i < front.len() {
                assert(text[i] == front[i]);
            }
        }
        assert(text[0] == front[0]);
        if front.len() == 1 && front[0] == '0' {
            reveal_with_fuel(decimal_read, 2);
            assert(front.drop_last() =~= Seq::<char>::empty());
            assert(decimal_read(front) == 0);
        }
    }
}

/// Fields of a query with ampersands between them.
pub open spec fn joined(fields: Seq<Seq<char>>) -> Seq<char>
    decreases fields.len(),
{
    if fields.len() == 0 {
        Seq::empty()
    } else if fields.len() == 1 {
        fields[0]
    } else {
        joined(fields.drop_last()) + seq!['&'] + fields.last()
    }
}

proof fn lemma_joined(fields: Seq<Seq<char>>, field: Seq<char>)
    requires
        fields.len() > 0,
    ensures
        joined(fields.push(field)) == joined(fields) + seq!['&'] + field,
{
    assert(fields.push(field).drop_last() =~= fields);
}

/// Whether the values are those of an announce: the two binary ones percent-encoded, with nothing
/// in them that means something in a query, and the numbers in decimal.
pub open spec fn are_values_of(values: Seq<Seq<char>>, params: AnnounceParams) -> bool {
    &&& values.len() == 8
    &&& percent_decoded(values[0]) == params.info_hash@
    &&& percent_decoded(values[1]) == params.peer_id@
    &&& forall|i: int|
        0 <= i < values[0].len() ==> #[trigger] values[0][i] != '&' && values[0][i] != '='
            && values[0][i] != '?' && values[0][i] != '#'
    &&& forall|i: int|
        0 <= i < values[1].len() ==> #[trigger] values[1][i] != '&' && values[1][i] != '='
            && values[1][i] != '?' && values[1][i] != '#'
    &&& reads_as_decimal(values[2], params.port as int)
    &&& reads_as_decimal(values[3], params.uploaded as int)
    &&& reads_as_decimal(values[4], params.downloaded as int)
    &&& reads_as_decimal(values[5], params.left as int)
    &&& values[6] == (if params.compact {
        seq!['1']
    } else {
        seq!['0']
    })
    &&& params.numwant matches Some(n) ==> reads_as_decimal(values[7], n as int)
}

/// The fields of an announce with these values: the event stands there unless the announce is a
/// routine one, and the number of peers wanted where there is one.
pub open spec fn announce_fields(values: Seq<Seq<char>>, params: AnnounceParams) -> Seq<Seq<char>> {
    seq![
        "info_hash="@ + values[0],
        "peer_id="@ + values[1],
        "port="@ + values[2],
        "uploaded="@ + values[3],
        "downloaded="@ + values[4],
        "left="@ + values[5],
        "compact="@ + values[6],
    ] + (match params.event {
        Event::Started => seq!["event=started"@],
        Event::Stopped => seq!["event=stopped"@],
        Event::Completed => seq!["event=completed"@],
        Event::Routine => Seq::empty(),
    }) + (match params.numwant {
        Some(_) => seq!["numwant="@ + values[7]],
        None => Seq::empty(),
    })
}

/// The announce URL is the tracker's own with a query behind it that holds every parameter under
/// its name; a query that the tracker's URL has already is kept.
pub proof fn law_announce_urls_carry_the_parameters(
    base: &str,
    params: &AnnounceParams,
    url: String,
)
    requires
        call_ensures(build_url, (base, params), url),
    ensures
        exists|values: Seq<Seq<char>>|
            are_values_of(values, *params) && url@ == base@ + (if base@.contains('?') {
                seq!['&']
            } else {
                seq!['?']
            }) + joined(#[trigger] announce_fields(values, *params)),
{
    let p = *params;
    let values = seq![
        percent_text(p.info_hash@),
        percent_text(p.peer_id@),
        decimal(p.port as nat),
        decimal(p.uploaded as nat),
        decimal(p.downloaded as nat),
        decimal(p.left as nat),
        decimal(
            if p.compact {
                1
            } else {
                0
            },
        ),
        match p.numwant {
            Some(n) => decimal(n as nat),
            None => Seq::empty(),
        },
    ];
    law_percent_encoding_is_faithful(p.info_hash@);
    law_percent_encoding_is_faithful(p.peer_id@);
    law_percent_encoding_is_clean(p.info_hash@);
    law_percent_encoding_is_clean(p.peer_id@);
    lemma_decimal(p.port as nat);
    lemma_decimal(p.uploaded as nat);
    lemma_decimal(p.downloaded as nat);
    lemma_decimal(p.left as nat);
    match p.numwant {
        Some(n) => lemma_decimal(n as nat),
        None => {},
    }
    assert(decimal(1) =~= seq!['1']);
    assert(decimal(0) =~= seq!['0']);
    assert(are_values_of(values, p));
    let f0 = seq!["info_hash="@ + values[0]];
    let f1 = f0.push("peer_id="@ + values[1]);
    let f2 = f1.push("port="@ + values[2]);
    let f3 = f2.push("uploaded="@ + values[3]);
    let f4 = f3.push("downloaded="@ + values[4]);
    let f5 = f4.push("left="@ + values[5]);
    let f6 = f5.push("compact="@ + values[6]);
    lemma_joined(f0, "peer_id="@ + values[1]);
    lemma_joined(f1, "port="@ + values[2]);
    lemma_joined(f2, "uploaded="@ + values[3]);
    lemma_joined(f3, "downloaded="@ + values[4]);
    lemma_joined(f4, "left="@ + values[5]);
    lemma_joined(f5, "compact="@ + values[6]);
    lemma_names();
    let q0 = "info_hash="@ + values[0];
    let q1 = q0 + "&peer_id="@ + values[1];
    let q2 = q1 + "&port="@ + values[2];
    let q3 = q2 + "&uploaded="@ + values[3];
    let q4 = q3 + "&downloaded="@ + values[4];
    let q5 = q4 + "&left="@ + values[5];
    let q6 = q5 + "&compact="@ + values[6];
    lemma_field(q0, "peer_id="@, values[1]);
    lemma_field(q1, "port="@, values[2]);
    lemma_field(q2, "uploaded="@, values[3]);
    lemma_field(q3, "downloaded="@, values[4]);
    lemma_field(q4, "left="@, values[5]);
    lemma_field(q5, "compact="@, values[6]);
    assert(joined(f6) == q6);
    let event: Seq<Seq<char>> = match p.event {
        Event::Started => seq!["event=started"@],
        Event::Stopped => seq!["event=stopped"@],
        Event::Completed => seq!["event=completed"@],
        Event::Routine => Seq::empty(),
    };
    let f7 = f6 + event;
    let q7 = q6 + event_text(p.event);
    lemma_events();
    if p.event == Event::Routine {
        assert(f7 =~= f6);
        assert(q7 =~= q6);
    } else {
        assert(f7 =~= f6.push(event[0]));
        lemma_joined(f6, event[0]);
        assert(event_text(p.event) == seq!['&'] + event[0]);
        assert(q6 + seq!['&'] + event[0] =~= q6 + (seq!['&'] + event[0]));
    }
    assert(joined(f7) == q7);
    let all = announce_fields(values, p);
    match p.numwant {
        Some(n) => {
            let field = "numwant="@ + values[7];
            assert(all =~= f7.push(field));
            lemma_joined(f7, field);
            lemma_field(q7, "numwant="@, values[7]);
            assert(q7 + "&numwant="@ + values[7] =~= q7 + numwant_text(p.numwant));
        },
        None => {
            assert(all =~= f7);
            assert(q7 + numwant_text(p.numwant) =~= q7);
        },
    }
    assert(query_text(p) == joined(all));
}

proof fn lemma_field(before: Seq<char>, name: Seq<char>, value: Seq<char>)
    ensures
        before + (seq!['&'] + name) + value == before + seq!['&'] + (name + value),
{
    assert(before + (seq!['&'] + name) + value =~= before + seq!['&'] + (name + value));
}

proof fn lemma_names()
    ensures
        "&peer_id="@ == seq!['&'] + "peer_id="@,
        "&port="@ == seq!['&'] + "port="@,
        "&uploaded="@ == seq!['&'] + "uploaded="@,
        "&downloaded="@ == seq!['&'] + "downloaded="@,
        "&left="@ == seq!['&'] + "left="@,
        "&compact="@ == seq!['&'] + "compact="@,
        "&numwant="@ == seq!['&'] + "numwant="@,
{
    reveal_strlit("&peer_id=");
    reveal_strlit("peer_id=");
    reveal_strlit("&port=");
    reveal_strlit("port=");
    reveal_strlit("&uploaded=");
    reveal_strlit("uploaded=");
    reveal_strlit("&downloaded=");
    reveal_strlit("downloaded=");
    reveal_strlit("&left=");
    reveal_strlit("left=");
    reveal_strlit("&compact=");
    reveal_strlit("compact=");
    reveal_strlit("&numwant=");
    reveal_strlit("numwant=");
    assert("&peer_id="@ =~= seq!['&'] + "peer_id="@);
    assert("&port="@ =~= seq!['&'] + "port="@);
    assert("&uploaded="@ =~= seq!['&'] + "uploaded="@);
    assert("&downloaded="@ =~= seq!['&'] + "downloaded="@);
    assert("&left="@ =~= seq!['&'] + "left="@);
    assert("&compact="@ =~= seq!['&'] + "compact="@);
    assert("&numwant="@ =~= seq!['&'] + "numwant="@);
}

proof fn lemma_events()
    ensures
        event_text(Event::Started) == seq!['&'] + "event=started"@,
        event_text(Event::Stopped) == seq!['&'] + "event=stopped"@,
        event_text(Event::Completed) == seq!['&'] + "event=completed"@,
        event_text(Event::Routine) == Seq::<char>::empty(),
{
    reveal_strlit("&event=");
    reveal_strlit("started");
    reveal_strlit("stopped");
    reveal_strlit("completed");
    reveal_strlit("event=started");
    reveal_strlit("event=stopped");
    reveal_strlit("event=completed");
    assert(event_text(Event::Started) =~= seq!['&'] + "event=started"@);
    assert(event_text(Event::Stopped) =~= seq!['&'] + "event=stopped"@);
    assert(event_text(Event::Completed) =~= seq!['&'] + "event=completed"@);
}

/// Whether a character stands for itself in a query.
pub open spec fn is_plain(ch: char) -> bool {
    ||| ch == '-'
    ||| ch == '.'
    ||| ch == '_'
    ||| ch == '~'
    ||| '0' <= ch <= '9'
    ||| 'A' <= ch <= 'Z'
    ||| 'a' <= ch <= 'z'
}

/// What a hexadecimal digit in capitals stands for.
pub open spec fn capital_digit(ch: char) -> int {
    if '0' <= ch <= '9' {
        ch as int - '0' as int
    } else if 'A' <= ch <= 'F' {
        ch as int - 'A' as int + 10
    } else {
        -1
    }
}

/// Percent-encoding gives nothing that means something in a query.
pub proof fn law_encoded_bytes_are_plain(bytes: &[u8], text: String)
    requires
        call_ensures(encode, (bytes,), text),
    ensures
        percent_decoded(text@) == bytes@,
        forall|i: int|
            0 <= i < text@.len() ==> #[trigger] text@[i] == '%' || is_plain(text@[i]),
{
    law_percent_encoding_is_faithful(bytes@);
    lemma_plain(bytes@);
}

proof fn lemma_plain(bytes: Seq<u8>)
    ensures
        forall|i: int|
            0 <= i < percent_text(bytes).len() ==> #[trigger] percent_text(bytes)[i] == '%'
                || is_plain(percent_text(bytes)[i]),
    decreases bytes.len(),
{
    if bytes.len() > 0 {
        let first = query_byte(bytes[0]);
        let rest = percent_text(bytes.skip(1));
        let text = percent_text(bytes);
        lemma_plain(bytes.skip(1));
        assert forall|i: int| 0 <= i < text.len() implies #[trigger] text[i] == '%' || is_plain(
            text[i],
        ) by {
            if i >= first.len() {
                assert(text[i] == rest[i - first.len()]);
            } else {
                assert(text[i] == first[i]);
            }
        }
    }
}

/// Alphanumeric bytes and the four marks stand as they are; every other byte becomes a percent
/// sign and its value in two hexadecimal digits.
pub proof fn law_bytes_are_encoded_by_value(bytes: &[u8], text: String)
    requires
        call_ensures(encode, (bytes,), text),
        bytes@.len() == 1,
    ensures
        is_plain(bytes@[0] as char) ==> text@ == seq![bytes@[0] as char],
        !is_plain(bytes@[0] as char) ==> {
            &&& text@.len() == 3
            &&& text@[0] == '%'
            &&& 0 <= capital_digit(text@[1])
            &&& 0 <= capital_digit(text@[2])
            &&& capital_digit(text@[1]) * 16 + capital_digit(text@[2]) == bytes@[0]
        },
{
    reveal_with_fuel(percent_text, 2);
    assert(bytes@.skip(1).len() == 0);
    assert(percent_text(bytes@.skip(1)) =~= Seq::<char>::empty());
    assert(text@ =~= query_byte(bytes@[0]));
}

/// Bytes are encoded one by one: what is encoded together is what is encoded apart.
pub proof fn law_bytes_are_encoded_one_by_one(
    early: &[u8],
    early_text: String,
    late: &[u8],
    late_text: String,
    all: &[u8],
    text: String,
)
    requires
        call_ensures(encode, (early,), early_text),
        call_ensures(encode, (late,), late_text),
        call_ensures(encode, (all,), text),
        all@ == early@ + late@,
    ensures
        text@ == early_text@ + late_text@,
{
    lemma_encoded_apart(early@, late@);
}

proof fn lemma_encoded_apart(early: Seq<u8>, late: Seq<u8>)
    ensures
        percent_text(early + late) == percent_text(early) + percent_text(late),
    decreases early.len(),
{
    if early.len() == 0 {
        assert(early + late =~= late);
        assert(percent_text(early) + percent_text(late) =~= percent_text(late));
    } else {
        lemma_encoded_apart(early.skip(1), late);
        assert((early + late).skip(1) =~= early.skip(1) + late);
        assert(percent_text(early + late) =~= percent_text(early) + percent_text(late));
    }
}

// Replies.

/// The port in the two bytes at `at`.
pub open spec fn u16_at(bytes: Seq<u8>, at: int) -> int {
    bytes[at] * 0x100 + bytes[at + 1]
}

/// Whether `bytes` are the compact form of IPv4 `peers`: six bytes each, address and port with
/// the highest byte first.
pub open spec fn is_compact(bytes: Seq<u8>, peers: Seq<PeerAddr>) -> bool {
    &&& bytes.len() == 6 * peers.len()
    &&& forall|i: int|
        0 <= i < peers.len() ==> (#[trigger] peers[i] matches PeerAddr::V4 { ip, port } && u32_at(
            bytes,
            6 * i,
        ) == ip && u16_at(bytes, 6 * i + 4) == port)
}

/// Whether `bytes` are the compact form of IPv6 `peers`: eighteen bytes each.
pub open spec fn is_compact_v6(bytes: Seq<u8>, peers: Seq<PeerAddr>) -> bool {
    &&& bytes.len() == 18 * peers.len()
    &&& forall|i: int|
        0 <= i < peers.len() ==> (#[trigger] peers[i] matches PeerAddr::V6 { ip6, port }
            && u32_at(bytes, 18 * i) * 0x1_0000_0000_0000_0000_0000_0000 + u32_at(
            bytes,
            18 * i + 4,
        ) * 0x1_0000_0000_0000_0000 + u32_at(bytes, 18 * i + 8) * 0x1_0000_0000 + u32_at(
            bytes,
            18 * i + 12,
        ) == ip6 && u16_at(bytes, 18 * i + 16) == port)
}

pub(crate) proof fn lemma_compact(bytes: Seq<u8>, peers: Seq<PeerAddr>)
    ensures
        is_compact(bytes, peers) <==> compact_peers_v4(bytes) == Ok::<Seq<PeerAddr>, Fault>(peers),
{
    if bytes.len() % 6 == 0 {
        let found = compact_peers_v4(bytes)->Ok_0;
        assert forall|i: int| 0 <= i < found.len() implies (
        #[trigger] found[i] matches PeerAddr::V4 { ip, port } && u32_at(bytes, 6 * i) == ip
            && u16_at(bytes, 6 * i + 4) == port) by {
            let chunk = bytes.subrange(6 * i, 6 * i + 6);
            lemma_be_value_4(chunk.subrange(0, 4));
            lemma_be_value_2(chunk.subrange(4, 6));
        }
        if is_compact(bytes, peers) {
            assert forall|i: int| 0 <= i < peers.len() implies peers[i] == found[i] by {
                assert(found[i] is V4);
            }
            assert(peers =~= found);
        }
    }
}

proof fn lemma_value_16(bytes: Seq<u8>)
    requires
        bytes.len() == 16,
    ensures
        be_value(bytes) == u32_at(bytes, 0) * 0x1_0000_0000_0000_0000_0000_0000 + u32_at(bytes, 4)
            * 0x1_0000_0000_0000_0000 + u32_at(bytes, 8) * 0x1_0000_0000 + u32_at(bytes, 12),
        be_value(bytes) <= u128::MAX,
{
    lemma_value_split(bytes, 12);
    lemma_value_split(bytes.take(12), 8);
    lemma_value_split(bytes.take(8), 4);
    assert(bytes.take(12).take(8) =~= bytes.take(8));
    assert(bytes.take(8).take(4) =~= bytes.take(4));
    lemma_be_value_4(bytes.take(4));
    lemma_be_value_4(bytes.take(8).skip(4));
    lemma_be_value_4(bytes.take(12).skip(8));
    lemma_be_value_4(bytes.skip(12));
    lemma_be_limits();
    lemma_be_value_bound(bytes);
}

/// The last four bytes of a number.
proof fn lemma_value_split(bytes: Seq<u8>, at: int)
    requires
        0 <= at,
        at + 4 == bytes.len(),
    ensures
        be_value(bytes) == be_value(bytes.take(at)) * 0x1_0000_0000 + be_value(bytes.skip(at)),
{
    let b3 = bytes.drop_last();
    let b2 = b3.drop_last();
    let b1 = b2.drop_last();
    let b0 = b1.drop_last();
    assert(b0 =~= bytes.take(at));
    lemma_be_value_4(bytes.skip(at));
    assert(be_value(bytes) == be_value(b3) * 256 + bytes[at + 3]);
    assert(be_value(b3) == be_value(b2) * 256 + bytes[at + 2]);
    assert(be_value(b2) == be_value(b1) * 256 + bytes[at + 1]);
    assert(be_value(b1) == be_value(b0) * 256 + bytes[at]);
}

proof fn lemma_compact_v6(bytes: Seq<u8>, peers: Seq<PeerAddr>)
    ensures
        is_compact_v6(bytes, peers) <==> compact_peers_v6(bytes) == Ok::<Seq<PeerAddr>, Fault>(
            peers,
        ),
{
    if bytes.len() % 18 == 0 {
        let found = compact_peers_v6(bytes)->Ok_0;
        assert forall|i: int| 0 <= i < found.len() implies (
        #[trigger] found[i] matches PeerAddr::V6 { ip6, port } && u32_at(bytes, 18 * i)
            * 0x1_0000_0000_0000_0000_0000_0000 + u32_at(bytes, 18 * i + 4)
            * 0x1_0000_0000_0000_0000 + u32_at(bytes, 18 * i + 8) * 0x1_0000_0000 + u32_at(
            bytes,
            18 * i + 12,
        ) == ip6 && u16_at(bytes, 18 * i + 16) == port) by {
            let chunk = bytes.subrange(18 * i, 18 * i + 18);
            let address = chunk.subrange(0, 16);
            lemma_value_16(address);
            lemma_be_value_2(chunk.subrange(16, 18));
            assert(u32_at(address, 0) == u32_at(bytes, 18 * i));
            assert(u32_at(address, 4) == u32_at(bytes, 18 * i + 4));
            assert(u32_at(address, 8) == u32_at(bytes, 18 * i + 8));
            assert(u32_at(address, 12) == u32_at(bytes, 18 * i + 12));
        }
        if is_compact_v6(bytes, peers) {
            assert forall|i: int| 0 <= i < peers.len() implies peers[i] == found[i] by {
                assert(found[i] is V6);
            }
            assert(peers =~= found);
        }
    }
}

/// A compact list is read as just the peers that it is the compact form of, all of them and in
/// order; bytes that are no compact list are refused.
pub proof fn law_compact_lists_are_read_in_full(
    bytes: &[u8],
    result: Result<Vec<PeerAddr>>,
    bytes6: &[u8],
    result6: Result<Vec<PeerAddr>>,
    peers: Seq<PeerAddr>,
)
    requires
        call_ensures(parse_compact_peers_v4, (bytes,), result),
        call_ensures(parse_compact_peers_v6, (bytes6,), result6),
    ensures
        is_compact(bytes@, peers) <==> (result matches Ok(found) && found@ == peers),
        result is Ok <==> bytes@.len() % 6 == 0,
        result matches Err(error) ==> error@ == Fault::InvalidPeersData(bytes@.len(), 6),
        is_compact_v6(bytes6@, peers) <==> (result6 matches Ok(found) && found@ == peers),
        result6 is Ok <==> bytes6@.len() % 18 == 0,
        result6 matches Err(error) ==> error@ == Fault::InvalidPeersData(bytes6@.len(), 18),
{
    lemma_compact(bytes@, peers);
    lemma_compact_v6(bytes6@, peers);
}

/// Whether a dictionary has a byte string under `key`.
pub open spec fn has_bytes(map: Entries, key: Seq<char>) -> bool {
    !lacks(map, key) && map[encode_utf8(key)] is Str
}

/// Whether a dictionary has a number under `key`.
pub open spec fn has_number(map: Entries, key: Seq<char>) -> bool {
    !lacks(map, key) && map[encode_utf8(key)] is Int
}

/// Whether a response complains of a failure.
pub open spec fn complains(map: Entries) -> bool {
    has_bytes(map, "failure reason"@)
}

/// A response with compact lists is read as one with exactly the peers of the lists, IPv4 before
/// IPv6, each list in order.
pub proof fn law_announced_peers_are_read(
    value: &Bencode,
    result: Result<AnnounceResponse>,
    map: Entries,
    blob: Seq<u8>,
    peers: Seq<PeerAddr>,
    blob6: Seq<u8>,
    peers6: Seq<PeerAddr>,
)
    requires
        call_ensures(read_response, (value,), result),
        value.view() == BencodeView::Dict(map),
        !complains(map),
        has_entry(map, "peers"@, BencodeView::Str(blob)) && is_compact(blob, peers)
            || !has_bytes(map, "peers"@) && !(map[encode_utf8("peers"@)] is List) && peers.len()
            == 0 || lacks(map, "peers"@) && peers.len() == 0,
        has_entry(map, "peers6"@, BencodeView::Str(blob6)) && is_compact_v6(blob6, peers6)
            || !has_bytes(map, "peers6"@) && peers6.len() == 0,
    ensures
        result matches Ok(response) && response.peers@ == peers + peers6,
{
    lemma_compact(blob, peers);
    lemma_compact_v6(blob6, peers6);
    if peers.len() == 0 {
        assert(peers =~= Seq::empty());
    }
    if peers6.len() == 0 {
        assert(peers6 =~= Seq::empty());
    }
}

/// A compact list that is cut off is refused, and so is what is no dictionary; a failure reason
/// is handed on.
pub proof fn law_failures_are_told(value: &Bencode, result: Result<AnnounceResponse>, map: Entries)
    requires
        call_ensures(read_response, (value,), result),
    ensures
        !(value.view() is Dict) ==> (result matches Err(error) && error@ is TrackerFailure),
        value.view() == BencodeView::Dict(map) ==> {
            &&& complains(map) ==> (result matches Err(error) && error@ == Fault::TrackerFailure(
                lossy_text(map[encode_utf8("failure reason"@)]->Str_0),
            ))
            &&& !complains(map) && has_bytes(map, "peers"@) ==> {
                let blob = map[encode_utf8("peers"@)]->Str_0;
                blob.len() % 6 != 0 ==> (result matches Err(error) && error@
                    == Fault::InvalidPeersData(blob.len(), 6))
            }
            &&& has_bytes(map, "peers6"@) ==> {
                let blob = map[encode_utf8("peers6"@)]->Str_0;
                blob.len() % 18 != 0 ==> result is Err
            }
        },
{
}

/// The numbers of a response are those that it gives: an interval of zero where it gives none or a
/// negative one, and counts only where it gives them, none of them negative.
pub proof fn law_announced_numbers_are_read(
    value: &Bencode,
    result: Result<AnnounceResponse>,
    map: Entries,
    n: i64,
)
    requires
        call_ensures(read_response, (value,), result),
        value.view() == BencodeView::Dict(map),
    ensures
        result matches Ok(response) ==> {
            &&& has_entry(map, "interval"@, BencodeView::Int(n)) && n >= 0 ==> response.interval
                == n
            &&& has_entry(map, "interval"@, BencodeView::Int(n)) && n < 0 ==> response.interval == 0
            &&& !has_number(map, "interval"@) ==> response.interval == 0
            &&& has_entry(map, "complete"@, BencodeView::Int(n)) && n >= 0 ==> (
            response.seeders matches Some(count) && count == n % 0x1_0000_0000)
            &&& has_entry(map, "complete"@, BencodeView::Int(n)) && n < 0 ==> response.seeders
                == Some(0u32)
            &&& !has_number(map, "complete"@) ==> response.seeders is None
            &&& has_entry(map, "incomplete"@, BencodeView::Int(n)) && n >= 0 ==> (
            response.leechers matches Some(count) && count == n % 0x1_0000_0000)
            &&& has_entry(map, "incomplete"@, BencodeView::Int(n)) && n < 0 ==> response.leechers
                == Some(0u32)
            &&& !has_number(map, "incomplete"@) ==> response.leechers is None
        },
{
}

/// The body of an HTTP reply is read as the value at its front, and refused where there is none.
pub proof fn law_bodies_are_read(
    body: &[u8],
    result: Result<AnnounceResponse>,
    value: &Bencode,
    read: Result<AnnounceResponse>,
)
    requires
        call_ensures(parse_http_response, (body,), result),
        call_ensures(read_response, (value,), read),
    ensures
        bencode_parse(body@) == Some(value.view()) ==> outcome(result) == outcome(read),
        bencode_parse(body@) is None ==> (result matches Err(error) && error@ is BencodeDecode),
{
}

/// Peers that come as dictionaries are read one after another: one more adds the peer at its
/// address and port, or none where it has no port or its address is no IP address.
pub proof fn law_dictionary_peers_are_read(
    list: &Vec<Bencode>,
    peers: Vec<PeerAddr>,
    longer: &Vec<Bencode>,
    more: Vec<PeerAddr>,
    entry: BencodeView,
    text: &str,
    address: Option<Ip>,
)
    requires
        call_ensures(parse_ip, (text,), address),
        call_ensures(parse_peer_dicts, (list,), peers),
        call_ensures(parse_peer_dicts, (longer,), more),
        list_view(longer@) == list_view(list@).push(entry),
    ensures
        list@.len() == 0 ==> peers@.len() == 0,
        !(entry is Dict) ==> more@ == peers@,
        forall|map: Entries, ip: Seq<u8>, port: i64|
            entry == BencodeView::Dict(map) && #[trigger] has_entry(
                map,
                "ip"@,
                BencodeView::Str(ip),
            ) && #[trigger] has_entry(map, "port"@, BencodeView::Int(port)) && port >= 0 && text@
                == lossy_text(ip) ==> ({
                let port = (port % 0x1_0000) as u16;
                more@ == (match address {
                    Some(Ip::V4(ip)) => peers@.push(PeerAddr::V4 { ip, port }),
                    Some(Ip::V6(ip6)) => peers@.push(PeerAddr::V6 { ip6, port }),
                    None => peers@,
                })
            }),
        forall|map: Entries|
            entry == BencodeView::Dict(map) && (!#[trigger] has_bytes(map, "ip"@) || !has_number(
                map,
                "port"@,
            )) ==> more@ == peers@,
{
    assert(list_view(longer@).drop_last() =~= list_view(list@));
    lemma_list_view(list@);
    assert(list_view(longer@).last() == entry);
    assert forall|port: i64| port >= 0 implies #[trigger] (port as u16) == port % 0x1_0000 by {
        let wide = port as u64;
        assert(wide as u16 == wide % 0x1_0000) by (bit_vector);
    }
}

/// A response whose peers come as dictionaries has the peers that these are read as, and behind
/// them those of the IPv6 list.
pub proof fn law_announced_dictionaries_are_read(
    value: &Bencode,
    result: Result<AnnounceResponse>,
    map: Entries,
    list: &Vec<Bencode>,
    peers: Vec<PeerAddr>,
    blob6: Seq<u8>,
    peers6: Seq<PeerAddr>,
)
    requires
        call_ensures(read_response, (value,), result),
        call_ensures(parse_peer_dicts, (list,), peers),
        value.view() == BencodeView::Dict(map),
        !complains(map),
        has_entry(map, "peers"@, BencodeView::List(list_view(list@))),
        has_entry(map, "peers6"@, BencodeView::Str(blob6)) && is_compact_v6(blob6, peers6)
            || !has_bytes(map, "peers6"@) && peers6.len() == 0,
    ensures
        result matches Ok(response) && response.peers@ == peers@ + peers6,
{
    lemma_compact_v6(blob6, peers6);
    if peers6.len() == 0 {
        assert(peers6 =~= Seq::empty());
    }
}

// Trackers.

/// How to announce goes by the scheme of the tracker's URL: HTTP and HTTPS, or UDP to the host and
/// port of the URL, which it needs; no other scheme is known.
pub proof fn law_transports_go_by_the_scheme(parts: UrlParts, result: Result<Transport>)
    requires
        call_ensures(transport_for, (parts,), result),
    ensures
        (result matches Ok(transport) && transport is Http) <==> parts@.scheme == "http"@
            || parts@.scheme == "https"@,
        parts@.scheme == "udp"@ ==> {
            &&& result is Ok <==> parts.host is Some && parts.port is Some
            &&& result matches Ok(Transport::Udp { host, port }) ==> host@ == parts.host->0@
                && port == parts.port->0
            &&& result matches Err(error) ==> error@ is UdpProtocol
        },
        !(parts@.scheme == "http"@ || parts@.scheme == "https"@ || parts@.scheme == "udp"@) ==> (
        result matches Err(error) && error@ == Fault::UnsupportedScheme(parts.scheme@)),
{
    reveal_strlit("http");
    reveal_strlit("https");
    reveal_strlit("udp");
    assert("udp"@.len() == 3);
    assert("http"@.len() == 4);
    assert("https"@.len() == 5);
}

/// The transport for a URL is that for its parts; what is no URL has none.
pub proof fn law_transports_of_urls(
    url: &str,
    result: Result<Transport>,
    parts: UrlParts,
    found: Result<Transport>,
)
    requires
        call_ensures(transport, (url,), result),
        call_ensures(transport_for, (parts,), found),
    ensures
        url_parse(url@) == Some(parts@) ==> outcome(result) == outcome(found),
        url_parse(url@) is None ==> (result matches Err(error) && error@ is UrlParse),
{
}

/// Each event has its own name and its own number; a routine announce has no name.
pub proof fn law_events_have_names(event: Event, name: &str, code: u32)
    requires
        call_ensures(Event::as_http_str, (event,), name),
        call_ensures(Event::as_udp_code, (event,), code),
    ensures
        event == Event::Routine <==> name@ == ""@,
        event == Event::Started <==> name@ == "started"@,
        event == Event::Stopped <==> name@ == "stopped"@,
        event == Event::Completed <==> name@ == "completed"@,
        event == Event::Routine <==> code == 0,
        event == Event::Completed <==> code == 1,
        event == Event::Started <==> code == 2,
        event == Event::Stopped <==> code == 3,
{
    reveal_strlit("");
    reveal_strlit("started");
    reveal_strlit("stopped");
    reveal_strlit("completed");
    assert(""@.len() == 0);
    assert("started"@.len() == 7);
    assert("stopped"@.len() == 7);
    assert("completed"@.len() == 9);
    assert("started"@[2] == 'a');
    assert("stopped"@[2] == 'o');
}

} // verus!
