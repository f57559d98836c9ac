//! The peer wire protocol: where each byte of a handshake or a message stands.

use vstd::prelude::*;
use bytes::BytesMut;
use crate::bigendian::{
    be_bytes, be_value, lemma_be_bytes_len, lemma_be_limits, lemma_be_value_2, lemma_be_value_4,
    lemma_be_value_of_bytes,
};
use crate::buffer::buffered;
use crate::error::Result;
use crate::metainfo::InfoHash;
use crate::peer::{CLIENT_PREFIX, PeerId};
use crate::peer::handshake::{Handshake, PSTR};
use crate::peer::message::{
    body_bytes, declared_len, encoded_bytes, law_decode_undoes_encode,
    law_decode_waits_for_the_whole_frame, law_encoder_writes_the_frame, Message, MessageView,
    PeerCodec,
};

verus! {

/// Whether `bytes` hold the ASCII text `text` at `at`.
pub open spec fn spells(bytes: Seq<u8>, at: int, text: Seq<char>) -> bool {
    forall|k: int| 0 <= k < text.len() ==> #[trigger] bytes[at + k] as int == text[k] as int
}

/// Whether `bytes` open like a handshake: 68 of them, a nineteen, and the protocol's name.
pub open spec fn opens_the_protocol(bytes: Seq<u8>) -> bool {
    bytes.len() == 68 && bytes[0] == 19 && spells(bytes, 1, "BitTorrent protocol"@)
}

proof fn lemma_protocol(bytes: Seq<u8>)
    requires
        bytes.len() == 68,
    ensures
        spells(bytes, 1, "BitTorrent protocol"@) <==> bytes.subrange(1, 20) == PSTR@,
{
    reveal_strlit("BitTorrent protocol");
    let text = "BitTorrent protocol"@;
    assert(text.len() == 19);
    assert forall|k: int| 0 <= k < 19 implies PSTR@[k] as int == text[k] as int by {}
    if spells(bytes, 1, text) {
        assert forall|k: int| 0 <= k < 19 implies bytes.subrange(1, 20)[k] == PSTR@[k] by {
            assert(bytes[1 + k] as int == text[k] as int);
        }
        assert(bytes.subrange(1, 20) =~= PSTR@);
    }
    if bytes.subrange(1, 20) == PSTR@ {
        assert forall|k: int| 0 <= k < 19 implies #[trigger] bytes[1 + k] as int
            == text[k] as int by {
            assert(bytes.subrange(1, 20)[k] == PSTR@[k]);
        }
    }
}

/// A handshake opens with the protocol's name; the reserved bytes, the info hash and the peer ID
/// follow it. One of our own has all reserved bits clear.
pub proof fn law_handshake_on_the_wire(
    info_hash: InfoHash,
    peer_id: PeerId,
    ours: Handshake,
    handshake: &Handshake,
    bytes: [u8; 68],
)
    requires
        call_ensures(Handshake::new, (info_hash, peer_id), ours),
        call_ensures(Handshake::to_bytes, (handshake,), bytes),
    ensures
        opens_the_protocol(bytes@),
        forall|k: int| 0 <= k < 8 ==> bytes@[20 + k] == #[trigger] handshake.reserved@[k],
        forall|k: int| 0 <= k < 20 ==> bytes@[28 + k] == #[trigger] handshake.info_hash@[k],
        forall|k: int| 0 <= k < 20 ==> bytes@[48 + k] == #[trigger] handshake.peer_id@[k],
        forall|k: int| 0 <= k < 8 ==> #[trigger] ours.reserved@[k] == 0,
        ours.info_hash == info_hash,
        ours.peer_id == peer_id,
{
    assert(bytes@.subrange(1, 20) =~= PSTR@);
    lemma_protocol(bytes@);
}

/// Bytes are read as a handshake just where they open like one, and every field is read from its
/// place.
pub proof fn law_handshakes_are_read(bytes: &[u8], result: Result<Handshake>)
    requires
        call_ensures(Handshake::from_bytes, (bytes,), result),
    ensures
        result is Ok <==> opens_the_protocol(bytes@),
        result matches Err(error) ==> error@ is PeerProtocol,
        result matches Ok(handshake) ==> {
            &&& forall|k: int| 0 <= k < 8 ==> #[trigger] handshake.reserved@[k] == bytes@[20 + k]
            &&& forall|k: int| 0 <= k < 20 ==> #[trigger] handshake.info_hash@[k] == bytes@[28 + k]
            &&& forall|k: int| 0 <= k < 20 ==> #[trigger] handshake.peer_id@[k] == bytes@[48 + k]
        },
{
    if bytes@.len() == 68 {
        lemma_protocol(bytes@);
    }
}

/// A peer's handshake is accepted just where it is one and names our torrent, all twenty bytes of
/// its info hash.
pub proof fn law_only_our_torrent_is_accepted(
    bytes: &[u8],
    info_hash: InfoHash,
    result: Result<Handshake>,
)
    requires
        call_ensures(Handshake::accept, (bytes, info_hash), result),
    ensures
        result is Ok <==> opens_the_protocol(bytes@) && forall|k: int|
            0 <= k < 20 ==> #[trigger] bytes@[28 + k] == info_hash@[k],
        result matches Err(error) ==> error@ is PeerProtocol,
        result matches Ok(handshake) ==> handshake.info_hash@ == info_hash@ && forall|k: int|
            0 <= k < 20 ==> #[trigger] handshake.peer_id@[k] == bytes@[48 + k],
{
    if bytes@.len() == 68 {
        lemma_protocol(bytes@);
        let theirs = bytes@.subrange(28, 48);
        if theirs == info_hash@ {
            assert forall|k: int| 0 <= k < 20 implies #[trigger] bytes@[28 + k] == info_hash@[k] by {
                assert(theirs[k] == info_hash@[k]);
            }
        }
        if forall|k: int| 0 <= k < 20 ==> #[trigger] bytes@[28 + k] == info_hash@[k] {
            assert forall|k: int| 0 <= k < 20 implies theirs[k] == info_hash@[k] by {
                assert(bytes@[28 + k] == info_hash@[k]);
            }
            assert(theirs =~= info_hash@);
        }
        match result {
            Ok(handshake) => {
                let wire = handshake.wire();
                assert(wire.subrange(28, 48) =~= handshake.info_hash@);
                assert forall|k: int| 0 <= k < 20 implies #[trigger] handshake.peer_id@[k]
                    == bytes@[48 + k] by {
                    assert(wire[48 + k] == handshake.peer_id@[k]);
                }
            },
            Err(_) => {},
        }
    }
}

/// Our peer IDs begin with the name and version of this client; the rest is what it was given.
pub proof fn law_peer_ids_name_the_client(generated: PeerId, suffix: [u8; 12], id: PeerId)
    requires
        call_ensures(PeerId::generate, (), generated),
        call_ensures(PeerId::with_suffix, (suffix,), id),
    ensures
        spells(generated@, 0, "-TN0001-"@),
        spells(id@, 0, "-TN0001-"@),
        forall|k: int| 0 <= k < 12 ==> id@[8 + k] == #[trigger] suffix@[k],
{
    reveal_strlit("-TN0001-");
    let text = "-TN0001-"@;
    assert(text.len() == 8);
    assert forall|k: int| 0 <= k < 8 implies CLIENT_PREFIX@[k] as int == text[k] as int by {}
    assert forall|k: int| 0 <= k < 8 implies #[trigger] generated@[0 + k] as int
        == text[k] as int by {
        assert(generated@.take(8)[k] == CLIENT_PREFIX@[k]);
    }
}

/// The number in the four bytes at `at`, the highest byte first.
pub open spec fn u32_at(bytes: Seq<u8>, at: int) -> int {
    bytes[at] * 0x100_0000 + bytes[at + 1] * 0x1_0000 + bytes[at + 2] * 0x100 + bytes[at + 3]
}

pub(crate) proof fn lemma_u32_at(bytes: Seq<u8>, at: int)
    requires
        0 <= at,
        at + 4 <= bytes.len(),
    ensures
        u32_at(bytes, at) == be_value(bytes.subrange(at, at + 4)),
{
    lemma_be_value_4(bytes.subrange(at, at + 4));
}

/// Whether the four bytes of a number stand at `at`.
proof fn lemma_number_at(bytes: Seq<u8>, at: int, n: nat)
    requires
        0 <= at,
        at + 4 <= bytes.len(),
        bytes.subrange(at, at + 4) == be_bytes(n, 4),
        n <= u32::MAX,
    ensures
        u32_at(bytes, at) == n,
{
    lemma_be_limits();
    lemma_be_value_of_bytes(n, 4);
    lemma_u32_at(bytes, at);
}

/// Whether `frame` is that of a message: the length of what follows in four bytes, then the
/// message's number and its payload, numbers with the highest byte first.
pub open spec fn is_frame_of(frame: Seq<u8>, message: MessageView) -> bool {
    &&& frame.len() >= 4
    &&& u32_at(frame, 0) == frame.len() - 4
    &&& match message {
        MessageView::KeepAlive => frame.len() == 4,
        MessageView::Choke => frame.len() == 5 && frame[4] == 0,
        MessageView::Unchoke => frame.len() == 5 && frame[4] == 1,
        MessageView::Interested => frame.len() == 5 && frame[4] == 2,
        MessageView::NotInterested => frame.len() == 5 && frame[4] == 3,
        MessageView::Have(index) => frame.len() == 9 && frame[4] == 4 && u32_at(frame, 5) == index,
        MessageView::Bitfield(bits) => frame.len() == 5 + bits.len() && frame[4] == 5
            && frame.skip(5) == bits,
        MessageView::Request(block) => frame.len() == 17 && frame[4] == 6 && u32_at(frame, 5)
            == block.index && u32_at(frame, 9) == block.begin && u32_at(frame, 13) == block.length,
        MessageView::Piece { index, begin, data } => frame.len() == 13 + data.len() && frame[4] == 7
            && u32_at(frame, 5) == index && u32_at(frame, 9) == begin && frame.skip(13) == data,
        MessageView::Cancel(block) => frame.len() == 17 && frame[4] == 8 && u32_at(frame, 5)
            == block.index && u32_at(frame, 9) == block.begin && u32_at(frame, 13) == block.length,
        MessageView::Port(port) => frame.len() == 7 && frame[4] == 9 && frame[5] * 0x100 + frame[6]
            == port,
    }
}

pub(crate) proof fn lemma_frame(message: MessageView)
    requires
        body_bytes(message).len() <= u32::MAX,
    ensures
        is_frame_of(encoded_bytes(message), message),
        encoded_bytes(message).len() == 4 + body_bytes(message).len(),
{
    law_encoder_writes_the_frame(message);
    let frame = encoded_bytes(message);
    let body = body_bytes(message);
    lemma_be_bytes_len(body.len(), 4);
    assert(frame.subrange(0, 4) =~= be_bytes(body.len(), 4));
    lemma_number_at(frame, 0, body.len());
    match message {
        MessageView::Have(index) => {
            lemma_be_bytes_len(index as nat, 4);
            assert(frame.subrange(5, 9) =~= be_bytes(index as nat, 4));
            lemma_number_at(frame, 5, index as nat);
        },
        MessageView::Bitfield(bits) => {
            assert(frame.skip(5) =~= bits);
        },
        MessageView::Request(block) | MessageView::Cancel(block) => {
            lemma_be_bytes_len(block.index as nat, 4);
            lemma_be_bytes_len(block.begin as nat, 4);
            lemma_be_bytes_len(block.length as nat, 4);
            assert(frame.subrange(5, 9) =~= be_bytes(block.index as nat, 4));
            assert(frame.subrange(9, 13) =~= be_bytes(block.begin as nat, 4));
            assert(frame.subrange(13, 17) =~= be_bytes(block.length as nat, 4));
            lemma_number_at(frame, 5, block.index as nat);
            lemma_number_at(frame, 9, block.begin as nat);
            lemma_number_at(frame, 13, block.length as nat);
        },
        MessageView::Piece { index, begin, data } => {
            lemma_be_bytes_len(index as nat, 4);
            lemma_be_bytes_len(begin as nat, 4);
            assert(frame.subrange(5, 9) =~= be_bytes(index as nat, 4));
            assert(frame.subrange(9, 13) =~= be_bytes(begin as nat, 4));
            lemma_number_at(frame, 5, index as nat);
            lemma_number_at(frame, 9, begin as nat);
            assert(frame.skip(13) =~= data);
        },
        MessageView::Port(port) => {
            lemma_be_bytes_len(port as nat, 2);
            lemma_be_limits();
            lemma_be_value_of_bytes(port as nat, 2);
            let two = be_bytes(port as nat, 2);
            lemma_be_value_2(two);
            assert(frame[5] == two[0] && frame[6] == two[1]);
        },
        _ => {},
    }
}

/// Encoding appends the frame of the message and leaves what stood before it alone.
pub proof fn law_messages_on_the_wire(
    codec: &mut PeerCodec,
    item: Message,
    dst: &mut BytesMut,
    result: Result<()>,
)
    requires
        call_ensures(PeerCodec::encode, (codec, item, dst), result),
        buffered(*final(dst)).len() - buffered(*old(dst)).len() <= u32::MAX,
    ensures
        result is Ok,
        ({
            let before = buffered(*old(dst));
            let after = buffered(*final(dst));
            &&& before.is_prefix_of(after)
            &&& is_frame_of(after.skip(before.len() as int), item@)
        }),
{
    let before = buffered(*old(dst));
    let after = buffered(*final(dst));
    assert(after.skip(before.len() as int) =~= encoded_bytes(item@));
    lemma_be_bytes_len(declared_len(item@), 4);
    lemma_frame(item@);
}

/// A frame within the size limit is decoded as the message that it is the frame of, whatever
/// follows it, and exactly what follows stays; before all of it has arrived, nothing is decoded
/// and nothing is lost.
pub proof fn law_frames_are_decoded(
    codec: &mut PeerCodec,
    src: &mut BytesMut,
    result: Result<Option<Message>>,
    message: MessageView,
    frame: Seq<u8>,
)
    requires
        call_ensures(PeerCodec::decode, (codec, src), result),
        is_frame_of(frame, message),
        frame.len() <= 4 + 0x10_0000,
    ensures
        frame.is_prefix_of(buffered(*old(src))) ==> (result matches Ok(Some(found)) && found@
            == message && buffered(*final(src)) == buffered(*old(src)).skip(frame.len() as int)),
        buffered(*old(src)).is_prefix_of(frame) && buffered(*old(src)).len() < frame.len()
            ==> (result matches Ok(None) && buffered(*final(src)) == buffered(*old(src))),
{
    lemma_frame_is_unique(frame, message);
    let buf = buffered(*old(src));
    if frame.is_prefix_of(buf) {
        let rest = buf.skip(frame.len() as int);
        assert(buf =~= frame + rest);
        law_decode_undoes_encode(message, rest);
    }
    if buf.is_prefix_of(frame) && buf.len() < frame.len() {
        assert(buf =~= frame.take(buf.len() as int));
        law_decode_waits_for_the_whole_frame(message, buf.len());
    }
}

/// A message has one frame.
proof fn lemma_frame_is_unique(frame: Seq<u8>, message: MessageView)
    requires
        is_frame_of(frame, message),
        frame.len() <= 4 + 0x10_0000,
    ensures
        frame == encoded_bytes(message),
        body_bytes(message).len() <= 0x10_0000,
{
    lemma_body_len(message);
    lemma_frame(message);
    let other = encoded_bytes(message);
    assert(other.len() == frame.len());
    lemma_same_number(frame, other, 0);
    match message {
        MessageView::Have(_) => lemma_same_number(frame, other, 5),
        MessageView::Bitfield(bits) => {
            assert forall|k: int| 5 <= k < frame.len() implies frame[k] == other[k] by {
                assert(frame.skip(5)[k - 5] == other.skip(5)[k - 5]);
            }
        },
        MessageView::Request(_) | MessageView::Cancel(_) => {
            lemma_same_number(frame, other, 5);
            lemma_same_number(frame, other, 9);
            lemma_same_number(frame, other, 13);
        },
        MessageView::Piece { data, .. } => {
            lemma_same_number(frame, other, 5);
            lemma_same_number(frame, other, 9);
            assert forall|k: int| 13 <= k < frame.len() implies frame[k] == other[k] by {
                assert(frame.skip(13)[k - 13] == other.skip(13)[k - 13]);
            }
        },
        _ => {},
    }
    assert(frame =~= other);
}

proof fn lemma_same_number(a: Seq<u8>, b: Seq<u8>, at: int)
    requires
        0 <= at,
        at + 4 <= a.len(),
        at + 4 <= b.len(),
        u32_at(a, at) == u32_at(b, at),
    ensures
        a[at] == b[at],
        a[at + 1] == b[at + 1],
        a[at + 2] == b[at + 2],
        a[at + 3] == b[at + 3],
{
}

proof fn lemma_body_len(message: MessageView)
    ensures
        body_bytes(message).len() == (match message {
            MessageView::KeepAlive => 0nat,
            MessageView::Have(_) => 5,
            MessageView::Bitfield(bits) => 1 + bits.len(),
            MessageView::Request(_) | MessageView::Cancel(_) => 13,
            MessageView::Piece { data, .. } => 9 + data.len(),
            MessageView::Port(_) => 3,
            _ => 1,
        }),
{
    match message {
        MessageView::Have(index) => lemma_be_bytes_len(index as nat, 4),
        MessageView::Request(block) | MessageView::Cancel(block) => {
            lemma_be_bytes_len(block.index as nat, 4);
            lemma_be_bytes_len(block.begin as nat, 4);
            lemma_be_bytes_len(block.length as nat, 4);
        },
        MessageView::Piece { index, begin, .. } => {
            lemma_be_bytes_len(index as nat, 4);
            lemma_be_bytes_len(begin as nat, 4);
        },
        MessageView::Port(port) => lemma_be_bytes_len(port as nat, 2),
        _ => {},
    }
}

/// Whether a body of `len` bytes that begins with `id` is that of some message.
pub open spec fn is_body_shape(id: u8, len: int) -> bool {
    ||| id <= 3 && len == 1
    ||| id == 4 && len == 5
    ||| id == 5
    ||| (id == 6 || id == 8) && len == 13
    ||| id == 7 && len >= 9
    ||| id == 9 && len == 3
}

/// What is no frame of a message breaks the protocol: a length over the limit at once, with the
/// buffer left as it is; a whole frame with an unknown number or a payload of the wrong size when
/// it is taken off.
pub proof fn law_other_bytes_break_the_protocol(
    codec: &mut PeerCodec,
    src: &mut BytesMut,
    result: Result<Option<Message>>,
)
    requires
        call_ensures(PeerCodec::decode, (codec, src), result),
        buffered(*old(src)).len() >= 4,
    ensures
        ({
            let buf = buffered(*old(src));
            let len = u32_at(buf, 0);
            &&& len > 0x10_0000 ==> (result matches Err(error) && error@ is PeerProtocol)
                && buffered(*final(src)) == buf
            &&& 1 <= len <= 0x10_0000 && buf.len() >= 4 + len ==> {
                &&& buffered(*final(src)) == buf.skip(4 + len)
                &&& is_body_shape(buf[4], len) ==> (result matches Ok(Some(_)))
                &&& !is_body_shape(buf[4], len) ==> (result matches Err(error)
                    && error@ is PeerProtocol)
            }
        }),
{
    let buf = buffered(*old(src));
    lemma_u32_at(buf, 0);
    assert(buf.subrange(0, 4) =~= buf.take(4));
    let len = u32_at(buf, 0);
    if 1 <= len && buf.len() >= 4 + len {
        let body = buf.subrange(4, 4 + len);
        assert(body[0] == buf[4]);
        assert(body.skip(1).len() == len - 1);
    }
}

} // verus!
