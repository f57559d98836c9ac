//! Peer wire messages and their length-prefixed framing.
//!
//! After the handshake, every message is:
//! ```text
//! <length prefix: u32 big-endian> <message id: u8> <payload...>
//! ```
//! except the keep-alive, which is just a length prefix of `0` and no id.

use vstd::prelude::*;
use bytes::{Bytes, BytesMut};
use crate::bigendian::{
    be_bytes, be_value, lemma_be_bytes_len, lemma_be_bytes_of_value, lemma_be_limits,
    lemma_be_value_4, lemma_be_value_bound, lemma_be_value_of_bytes,
};
use crate::buffer::{
    advance, buffered, byte_at, get_u16, get_u32, put_bytes, put_u16, put_u32, put_u8, shared,
};
use crate::error::{Error, Fault, Result};
use crate::text::{decimal, push_decimal};

verus! {

pub const ID_CHOKE: u8 = 0;

pub const ID_UNCHOKE: u8 = 1;

pub const ID_INTERESTED: u8 = 2;

pub const ID_NOT_INTERESTED: u8 = 3;

pub const ID_HAVE: u8 = 4;

pub const ID_BITFIELD: u8 = 5;

pub const ID_REQUEST: u8 = 6;

pub const ID_PIECE: u8 = 7;

pub const ID_CANCEL: u8 = 8;

pub const ID_PORT: u8 = 9;

/// Upper bound on a single message's declared length (1 MiB). Guards against a hostile peer
/// sending a huge prefix that would force a massive buffer allocation. Comfortably above any
/// legitimate block (typically 16 KiB).
pub const MAX_MESSAGE_LEN: usize = 0x10_0000;

/// Identifies a block within the torrent: used by `Request` and `Cancel`, and to describe what
/// a `Piece` answers. A block is a contiguous range `[begin, begin + length)` inside piece
/// `index`.
#[derive(Debug, Clone, Copy, PartialEq, Eq, Hash, Structural)]
pub struct BlockInfo {
    /// Zero-based piece index.
    pub index: u32,
    /// Byte offset of the block within the piece.
    pub begin: u32,
    /// Length of the block in bytes.
    pub length: u32,
}

/// A delivered block of piece data (the `Piece` message payload).
#[derive(Debug, PartialEq, Eq)]
pub struct Block {
    /// Piece this block belongs to.
    pub index: u32,
    /// Offset of this block within the piece.
    pub begin: u32,
    /// The block's bytes.
    pub data: Bytes,
}

/// A single peer wire protocol message.
#[derive(Debug, PartialEq, Eq)]
pub enum Message {
    /// Periodic no-op to keep the connection alive (length prefix `0`).
    KeepAlive,
    /// Sender will not serve requests until it unchokes us.
    Choke,
    /// Sender will now serve our requests.
    Unchoke,
    /// Sender wants data we have.
    Interested,
    /// Sender no longer wants our data.
    NotInterested,
    /// Sender has acquired the given piece.
    Have(u32),
    /// Bitfield of pieces the sender has (1 bit per piece, MSB-first).
    Bitfield(Bytes),
    /// Request for a block.
    Request(BlockInfo),
    /// A delivered block.
    Piece(Block),
    /// Cancel a previously requested block.
    Cancel(BlockInfo),
    /// DHT port announcement (BEP 5).
    Port(u16),
}

/// A message over plain values.
#[verifier::ext_equal]
pub enum MessageView {
    KeepAlive,
    Choke,
    Unchoke,
    Interested,
    NotInterested,
    Have(u32),
    Bitfield(Seq<u8>),
    Request(BlockInfo),
    Piece { index: u32, begin: u32, data: Seq<u8> },
    Cancel(BlockInfo),
    Port(u16),
}

impl View for Message {
    type V = MessageView;

    open spec fn view(&self) -> MessageView {
        match self {
            Message::KeepAlive => MessageView::KeepAlive,
            Message::Choke => MessageView::Choke,
            Message::Unchoke => MessageView::Unchoke,
            Message::Interested => MessageView::Interested,
            Message::NotInterested => MessageView::NotInterested,
            Message::Have(index) => MessageView::Have(*index),
            Message::Bitfield(bits) => MessageView::Bitfield(shared(*bits)),
            Message::Request(info) => MessageView::Request(*info),
            Message::Piece(block) => MessageView::Piece {
                index: block.index,
                begin: block.begin,
                data: shared(block.data),
            },
            Message::Cancel(info) => MessageView::Cancel(*info),
            Message::Port(port) => MessageView::Port(*port),
        }
    }
}

impl Clone for Block {
    fn clone(&self) -> (copy: Self)
        ensures
            copy.index == self.index,
            copy.begin == self.begin,
            shared(copy.data) == shared(self.data),
    {
        Block { index: self.index, begin: self.begin, data: self.data.clone() }
    }
}

impl Clone for Message {
    fn clone(&self) -> (copy: Self)
        ensures
            copy@ == self@,
    {
        match self {
            Message::KeepAlive => Message::KeepAlive,
            Message::Choke => Message::Choke,
            Message::Unchoke => Message::Unchoke,
            Message::Interested => Message::Interested,
            Message::NotInterested => Message::NotInterested,
            Message::Have(index) => Message::Have(*index),
            Message::Bitfield(bits) => Message::Bitfield(bits.clone()),
            Message::Request(info) => Message::Request(*info),
            Message::Piece(block) => Message::Piece(block.clone()),
            Message::Cancel(info) => Message::Cancel(*info),
            Message::Port(port) => Message::Port(*port),
        }
    }
}

/// The twelve bytes of an `index/begin/length` triple.
pub open spec fn block_info_bytes(info: BlockInfo) -> Seq<u8> {
    be_bytes(info.index as nat, 4) + be_bytes(info.begin as nat, 4) + be_bytes(
        info.length as nat,
        4,
    )
}

/// What follows the length prefix: the id and the payload. Empty for a keep-alive.
pub open spec fn body_bytes(message: MessageView) -> Seq<u8> {
    match message {
        MessageView::KeepAlive => Seq::empty(),
        MessageView::Choke => seq![ID_CHOKE],
        MessageView::Unchoke => seq![ID_UNCHOKE],
        MessageView::Interested => seq![ID_INTERESTED],
        MessageView::NotInterested => seq![ID_NOT_INTERESTED],
        MessageView::Have(index) => seq![ID_HAVE] + be_bytes(index as nat, 4),
        MessageView::Bitfield(bits) => seq![ID_BITFIELD] + bits,
        MessageView::Request(info) => seq![ID_REQUEST] + block_info_bytes(info),
        MessageView::Piece { index, begin, data } => seq![ID_PIECE] + be_bytes(index as nat, 4)
            + be_bytes(begin as nat, 4) + data,
        MessageView::Cancel(info) => seq![ID_CANCEL] + block_info_bytes(info),
        MessageView::Port(port) => seq![ID_PORT] + be_bytes(port as nat, 2),
    }
}

/// The message on the wire: the length of the body in four bytes, then the body.
pub open spec fn frame_bytes(message: MessageView) -> Seq<u8> {
    be_bytes(body_bytes(message).len(), 4) + body_bytes(message)
}

/// The length that the encoder declares: that of the body, where the length of the bitfield or
/// of the data fits in 32 bits; of a longer one only the low 32 bits are counted.
pub open spec fn declared_len(message: MessageView) -> nat {
    match message {
        MessageView::Bitfield(bits) => 1 + bits.len() % 0x1_0000_0000,
        MessageView::Piece { data, .. } => 9 + data.len() % 0x1_0000_0000,
        _ => body_bytes(message).len(),
    }
}

/// What the encoder writes.
pub open spec fn encoded_bytes(message: MessageView) -> Seq<u8> {
    be_bytes(declared_len(message), 4) + body_bytes(message)
}

/// The triple that twelve bytes hold.
pub open spec fn parse_block_info(bytes: Seq<u8>) -> BlockInfo {
    BlockInfo {
        index: be_value(bytes.subrange(0, 4)) as u32,
        begin: be_value(bytes.subrange(4, 8)) as u32,
        length: be_value(bytes.subrange(8, 12)) as u32,
    }
}

/// The complaint about a payload where there must be none.
pub open spec fn payload_text(name: Seq<char>, len: nat) -> Seq<char> {
    name + " message must have no payload, got "@ + decimal(len) + " bytes"@
}

/// The complaint about a payload of the wrong length.
pub open spec fn length_text(name: Seq<char>, expected: nat, len: nat) -> Seq<char> {
    name + " message payload must be "@ + decimal(expected) + " bytes, got "@ + decimal(len)
}

/// The complaint about a payload that is too short.
pub open spec fn min_length_text(name: Seq<char>, min: nat, len: nat) -> Seq<char> {
    name + " message payload must be at least "@ + decimal(min) + " bytes, got "@ + decimal(len)
}

/// A message that has no payload, or the complaint.
pub open spec fn parse_empty(
    message: MessageView,
    name: Seq<char>,
    payload: Seq<u8>,
) -> std::result::Result<MessageView, Seq<char>> {
    if payload.len() == 0 {
        Ok(message)
    } else {
        Err(payload_text(name, payload.len()))
    }
}

/// The message that a non-empty body holds, or the complaint about it.
pub open spec fn parse_body(body: Seq<u8>) -> std::result::Result<MessageView, Seq<char>> {
    let id = body[0];
    let payload = body.skip(1);
    let len = payload.len();
    if id == ID_CHOKE {
        parse_empty(MessageView::Choke, "Choke"@, payload)
    } else if id == ID_UNCHOKE {
        parse_empty(MessageView::Unchoke, "Unchoke"@, payload)
    } else if id == ID_INTERESTED {
        parse_empty(MessageView::Interested, "Interested"@, payload)
    } else if id == ID_NOT_INTERESTED {
        parse_empty(MessageView::NotInterested, "NotInterested"@, payload)
    } else if id == ID_HAVE {
        if len == 4 {
            Ok(MessageView::Have(be_value(payload) as u32))
        } else {
            Err(length_text("have"@, 4, len))
        }
    } else if id == ID_BITFIELD {
        Ok(MessageView::Bitfield(payload))
    } else if id == ID_REQUEST {
        if len == 12 {
            Ok(MessageView::Request(parse_block_info(payload)))
        } else {
            Err(length_text("request"@, 12, len))
        }
    } else if id == ID_PIECE {
        if len >= 8 {
            Ok(
                MessageView::Piece {
                    index: be_value(payload.subrange(0, 4)) as u32,
                    begin: be_value(payload.subrange(4, 8)) as u32,
                    data: payload.skip(8),
                },
            )
        } else {
            Err(min_length_text("piece"@, 8, len))
        }
    } else if id == ID_CANCEL {
        if len == 12 {
            Ok(MessageView::Cancel(parse_block_info(payload)))
        } else {
            Err(length_text("cancel"@, 12, len))
        }
    } else if id == ID_PORT {
        if len == 2 {
            Ok(MessageView::Port(be_value(payload) as u16))
        } else {
            Err(length_text("port"@, 2, len))
        }
    } else {
        Err("unknown message id "@ + decimal(id as nat))
    }
}

/// What the front of a buffer holds, with the bytes that stay in the buffer.
#[verifier::ext_equal]
pub enum Front {
    /// Not yet a whole frame; all the bytes stay.
    Incomplete,
    /// A message.
    Message(MessageView, Seq<u8>),
    /// Bytes that break the protocol.
    Violation(Seq<char>, Seq<u8>),
}

/// Reads the frame at the front of `bytes`.
pub open spec fn parse_front(bytes: Seq<u8>) -> Front {
    if bytes.len() < 4 {
        Front::Incomplete
    } else {
        let len = be_value(bytes.take(4)) as int;
        if len == 0 {
            Front::Message(MessageView::KeepAlive, bytes.skip(4))
        } else if len > MAX_MESSAGE_LEN {
            Front::Violation(
                "declared message length "@ + decimal(len as nat) + " exceeds maximum "@ + decimal(
                    MAX_MESSAGE_LEN as nat,
                ),
                bytes,
            )
        } else if bytes.len() < 4 + len {
            Front::Incomplete
        } else {
            match parse_body(bytes.subrange(4, 4 + len)) {
                Ok(message) => Front::Message(message, bytes.skip(4 + len)),
                Err(text) => Front::Violation(text, bytes.skip(4 + len)),
            }
        }
    }
}

/// Encoder/decoder for the length-prefixed message stream.
#[derive(Debug, Default, Clone, Copy)]
pub struct PeerCodec;

impl PeerCodec {
    pub fn new() -> (codec: Self)
        ensures
            codec == PeerCodec,
    {
        PeerCodec
    }

    /// Takes the next message off the front of `src`: `None` while the frame is not complete,
    /// an error where the bytes break the protocol. An oversized length prefix stays in the
    /// buffer; a complete frame is removed whether or not it can be read.
    pub fn decode(&mut self, src: &mut BytesMut) -> (result: Result<Option<Message>>)
        ensures
            match parse_front(buffered(*old(src))) {
                Front::Incomplete => {
                    &&& result == Ok::<Option<Message>, Error>(None)
                    &&& buffered(*final(src)) == buffered(*old(src))
                },
                Front::Message(message, rest) => {
                    &&& result matches Ok(Some(found))
                    &&& found@ == message
                    &&& buffered(*final(src)) == rest
                },
                Front::Violation(text, rest) => {
                    &&& result matches Err(error)
                    &&& error@ == Fault::PeerProtocol(text)
                    &&& buffered(*final(src)) == rest
                },
            },
    {
        let ghost start = buffered(*src);
        if src.len() < 4 {
            return Ok(None);
        }
        let prefix: u32 = byte_at(src, 0) as u32 * 0x100_0000 + byte_at(src, 1) as u32 * 0x1_0000
            + byte_at(src, 2) as u32 * 0x100 + byte_at(src, 3) as u32;
        proof {
            lemma_be_value_4(start.take(4));
        }
        let len: usize = prefix as usize;
        if len == 0 {
            advance(src, 4);
            return Ok(Some(Message::KeepAlive));
        }
        if len > MAX_MESSAGE_LEN {
            let mut text = "declared message length ".to_owned();
            push_decimal(&mut text, len as u64);
            text.append(" exceeds maximum ");
            push_decimal(&mut text, MAX_MESSAGE_LEN as u64);
            return Err(Error::PeerProtocol(text));
        }
        if src.len() < 4 + len {
            let missing: usize = 4 + len - src.len();
            src.reserve(missing);
            return Ok(None);
        }
        advance(src, 4);
        let body = src.split_to(len);
        proof {
            assert(buffered(body) =~= start.subrange(4, 4 + len));
            assert(buffered(*src) =~= start.skip(4 + len));
        }
        match Self::decode_body(body) {
            Ok(message) => Ok(Some(message)),
            Err(error) => Err(error),
        }
    }

    /// Whether [`encode`](Self::encode) may be called: the frame fits behind what `dst` holds,
    /// and its declared length in 32 bits.
    pub fn can_encode(&self, item: &Message, dst: &BytesMut) -> (ok: bool)
        ensures
            ok == (buffered(*dst).len() + encoded_bytes(item@).len() <= isize::MAX && declared_len(
                item@,
            ) <= u32::MAX),
    {
        proof {
            lemma_encoded_len(item@);
        }
        let limit: usize = isize::MAX as usize;
        if dst.len() > limit {
            return false;
        }
        let room: usize = limit - dst.len();
        match item {
            Message::KeepAlive => room >= 4,
            Message::Have(_) => room >= 9,
            Message::Bitfield(bits) => room >= 5 && bits.len() <= room - 5 && low_u32(bits.len())
                <= u32::MAX - 1,
            Message::Request(_) | Message::Cancel(_) => room >= 17,
            Message::Piece(block) => room >= 13 && block.data.len() <= room - 13 && low_u32(
                block.data.len(),
            ) <= u32::MAX - 9,
            Message::Port(_) => room >= 7,
            _ => room >= 5,
        }
    }

    /// Appends `item` to `dst` as one frame.
    pub fn encode(&mut self, item: Message, dst: &mut BytesMut) -> (result: Result<()>)
        requires
            buffered(*old(dst)).len() + encoded_bytes(item@).len() <= isize::MAX,
            declared_len(item@) <= u32::MAX,
        ensures
            result is Ok,
            buffered(*final(dst)) == buffered(*old(dst)) + encoded_bytes(item@),
    {
        let ghost start = buffered(*dst);
        proof {
            lemma_encoded_len(item@);
        }
        match item {
            Message::KeepAlive => put_u32(dst, 0),
            Message::Choke => put_simple(dst, ID_CHOKE),
            Message::Unchoke => put_simple(dst, ID_UNCHOKE),
            Message::Interested => put_simple(dst, ID_INTERESTED),
            Message::NotInterested => put_simple(dst, ID_NOT_INTERESTED),
            Message::Have(index) => {
                put_u32(dst, 5);
                put_u8(dst, ID_HAVE);
                put_u32(dst, index);
            },
            Message::Bitfield(bits) => {
                put_u32(dst, 1 + low_u32(bits.len()));
                put_u8(dst, ID_BITFIELD);
                put_bytes(dst, &bits);
            },
            Message::Request(info) => put_block_info(dst, ID_REQUEST, info),
            Message::Cancel(info) => put_block_info(dst, ID_CANCEL, info),
            Message::Piece(block) => {
                proof {
                    lemma_be_bytes_len(declared_len(item@), 4);
                    lemma_be_bytes_len(block.index as nat, 4);
                    lemma_be_bytes_len(block.begin as nat, 4);
                }
                put_u32(dst, 9 + low_u32(block.data.len()));
                put_u8(dst, ID_PIECE);
                put_u32(dst, block.index);
                put_u32(dst, block.begin);
                put_bytes(dst, &block.data);
            },
            Message::Port(port) => {
                put_u32(dst, 3);
                put_u8(dst, ID_PORT);
                put_u16(dst, port);
            },
        }
        assert(buffered(*dst) =~= start + encoded_bytes(item@));
        Ok(())
    }

    /// Reads a complete, non-empty body.
    fn decode_body(body: BytesMut) -> (result: Result<Message>)
        requires
            0 < buffered(body).len() <= MAX_MESSAGE_LEN,
        ensures
            match parse_body(buffered(body)) {
                Ok(message) => result matches Ok(found) && found@ == message,
                Err(text) => result matches Err(error) && error@ == Fault::PeerProtocol(text),
            },
    {
        let ghost whole = buffered(body);
        let mut body = body;
        let id: u8 = byte_at(&body, 0);
        advance(&mut body, 1);
        let ghost payload = buffered(body);
        if id == ID_CHOKE {
            Self::expect_empty(body, Message::Choke, "Choke")
        } else if id == ID_UNCHOKE {
            Self::expect_empty(body, Message::Unchoke, "Unchoke")
        } else if id == ID_INTERESTED {
            Self::expect_empty(body, Message::Interested, "Interested")
        } else if id == ID_NOT_INTERESTED {
            Self::expect_empty(body, Message::NotInterested, "NotInterested")
        } else if id == ID_HAVE {
            match Self::expect_len(&body, 4, "have") {
                Err(error) => Err(error),
                Ok(()) => {
                    assert(payload.take(4) =~= payload);
                    Ok(Message::Have(get_u32(&mut body)))
                },
            }
        } else if id == ID_BITFIELD {
            Ok(Message::Bitfield(body.freeze()))
        } else if id == ID_REQUEST {
            match Self::expect_len(&body, 12, "request") {
                Err(error) => Err(error),
                Ok(()) => Ok(Message::Request(read_block_info(&mut body))),
            }
        } else if id == ID_PIECE {
            match Self::expect_min_len(&body, 8, "piece") {
                Err(error) => Err(error),
                Ok(()) => {
                    let index: u32 = get_u32(&mut body);
                    let begin: u32 = get_u32(&mut body);
                    proof {
                        assert(payload.take(4) =~= payload.subrange(0, 4));
                        assert(payload.skip(4).take(4) =~= payload.subrange(4, 8));
                        assert(payload.skip(4).skip(4) =~= payload.skip(8));
                    }
                    Ok(Message::Piece(Block { index, begin, data: body.freeze() }))
                },
            }
        } else if id == ID_CANCEL {
            match Self::expect_len(&body, 12, "cancel") {
                Err(error) => Err(error),
                Ok(()) => Ok(Message::Cancel(read_block_info(&mut body))),
            }
        } else if id == ID_PORT {
            match Self::expect_len(&body, 2, "port") {
                Err(error) => Err(error),
                Ok(()) => {
                    assert(payload.take(2) =~= payload);
                    Ok(Message::Port(get_u16(&mut body)))
                },
            }
        } else {
            let mut text = "unknown message id ".to_owned();
            push_decimal(&mut text, id as u64);
            Err(Error::PeerProtocol(text))
        }
    }

    /// A fixed-length, payload-free message: the payload must be empty.
    fn expect_empty(body: BytesMut, msg: Message, name: &str) -> (result: Result<Message>)
        ensures
            match parse_empty(msg@, name@, buffered(body)) {
                Ok(message) => result matches Ok(found) && found@ == message,
                Err(text) => result matches Err(error) && error@ == Fault::PeerProtocol(text),
            },
    {
        if body.len() == 0 {
            Ok(msg)
        } else {
            let mut text = name.to_owned();
            text.append(" message must have no payload, got ");
            push_decimal(&mut text, body.len() as u64);
            text.append(" bytes");
            Err(Error::PeerProtocol(text))
        }
    }

    fn expect_len(body: &BytesMut, expected: usize, name: &str) -> (result: Result<()>)
        ensures
            result is Ok <==> buffered(*body).len() == expected,
            result matches Err(error) ==> error@ == Fault::PeerProtocol(
                length_text(name@, expected as nat, buffered(*body).len()),
            ),
    {
        if body.len() == expected {
            Ok(())
        } else {
            let mut text = name.to_owned();
            text.append(" message payload must be ");
            push_decimal(&mut text, expected as u64);
            text.append(" bytes, got ");
            push_decimal(&mut text, body.len() as u64);
            Err(Error::PeerProtocol(text))
        }
    }

    fn expect_min_len(body: &BytesMut, min: usize, name: &str) -> (result: Result<()>)
        ensures
            result is Ok <==> buffered(*body).len() >= min,
            result matches Err(error) ==> error@ == Fault::PeerProtocol(
                min_length_text(name@, min as nat, buffered(*body).len()),
            ),
    {
        if body.len() >= min {
            Ok(())
        } else {
            let mut text = name.to_owned();
            text.append(" message payload must be at least ");
            push_decimal(&mut text, min as u64);
            text.append(" bytes, got ");
            push_decimal(&mut text, body.len() as u64);
            Err(Error::PeerProtocol(text))
        }
    }
}

/// Read a 12-byte `index/begin/length` triple as a [`BlockInfo`].
fn read_block_info(body: &mut BytesMut) -> (info: BlockInfo)
    requires
        buffered(*old(body)).len() == 12,
    ensures
        info == parse_block_info(buffered(*old(body))),
{
    let ghost start = buffered(*body);
    let index: u32 = get_u32(body);
    let begin: u32 = get_u32(body);
    let length: u32 = get_u32(body);
    proof {
        assert(start.take(4) =~= start.subrange(0, 4));
        assert(start.skip(4).take(4) =~= start.subrange(4, 8));
        assert(start.skip(4).skip(4).take(4) =~= start.subrange(8, 12));
    }
    BlockInfo { index, begin, length }
}

/// The low 32 bits of a length.
pub fn low_u32(len: usize) -> (low: u32)
    ensures
        low == len as nat % 0x1_0000_0000,
{
    let wide: u64 = len as u64;
    assert(wide as u32 == wide % 0x1_0000_0000) by (bit_vector);
    wide as u32
}

/// Encode a zero-payload message: length `1`, just the id byte.
fn put_simple(dst: &mut BytesMut, msg_id: u8)
    requires
        buffered(*old(dst)).len() + 5 <= isize::MAX,
    ensures
        buffered(*final(dst)) == buffered(*old(dst)) + (be_bytes(1, 4) + seq![msg_id]),
{
    proof {
        lemma_be_bytes_len(1, 4);
    }
    put_u32(dst, 1);
    put_u8(dst, msg_id);
    assert(buffered(*dst) =~= buffered(*old(dst)) + (be_bytes(1, 4) + seq![msg_id]));
}

/// Encode a `request`/`cancel`: length `13`, id, then the 12-byte triple.
fn put_block_info(dst: &mut BytesMut, msg_id: u8, info: BlockInfo)
    requires
        buffered(*old(dst)).len() + 17 <= isize::MAX,
    ensures
        buffered(*final(dst)) == buffered(*old(dst)) + (be_bytes(13, 4) + (seq![msg_id]
            + block_info_bytes(info))),
{
    proof {
        lemma_be_bytes_len(13, 4);
        lemma_be_bytes_len(info.index as nat, 4);
        lemma_be_bytes_len(info.begin as nat, 4);
    }
    put_u32(dst, 13);
    put_u8(dst, msg_id);
    put_u32(dst, info.index);
    put_u32(dst, info.begin);
    put_u32(dst, info.length);
    assert(buffered(*dst) =~= buffered(*old(dst)) + (be_bytes(13, 4) + (seq![msg_id]
        + block_info_bytes(info))));
}

/// The lengths of the parts of a frame.
pub(crate) proof fn lemma_encoded_len(message: MessageView)
    ensures
        encoded_bytes(message).len() == 4 + body_bytes(message).len(),
        body_bytes(message).len() == match message {
            MessageView::KeepAlive => 0,
            MessageView::Have(_) => 5,
            MessageView::Bitfield(bits) => 1 + bits.len(),
            MessageView::Request(_) => 13,
            MessageView::Cancel(_) => 13,
            MessageView::Piece { data, .. } => 9 + data.len(),
            MessageView::Port(_) => 3,
            _ => 1,
        },
{
    lemma_be_bytes_len(declared_len(message), 4);
    match message {
        MessageView::Have(index) => lemma_be_bytes_len(index as nat, 4),
        MessageView::Request(info) => lemma_block_info_len(info),
        MessageView::Cancel(info) => lemma_block_info_len(info),
        MessageView::Piece { index, begin, data } => {
            lemma_be_bytes_len(index as nat, 4);
            lemma_be_bytes_len(begin as nat, 4);
        },
        MessageView::Port(port) => lemma_be_bytes_len(port as nat, 2),
        _ => {},
    }
}

proof fn lemma_block_info_len(info: BlockInfo)
    ensures
        block_info_bytes(info).len() == 12,
{
    lemma_be_bytes_len(info.index as nat, 4);
    lemma_be_bytes_len(info.begin as nat, 4);
    lemma_be_bytes_len(info.length as nat, 4);
}

/// A triple that was written is read back.
proof fn lemma_block_info_round_trip(info: BlockInfo)
    ensures
        block_info_bytes(info).len() == 12,
        parse_block_info(block_info_bytes(info)) == info,
{
    lemma_be_limits();
    lemma_be_value_of_bytes(info.index as nat, 4);
    lemma_be_value_of_bytes(info.begin as nat, 4);
    lemma_be_value_of_bytes(info.length as nat, 4);
    let bytes = block_info_bytes(info);
    assert(bytes.subrange(0, 4) =~= be_bytes(info.index as nat, 4));
    assert(bytes.subrange(4, 8) =~= be_bytes(info.begin as nat, 4));
    assert(bytes.subrange(8, 12) =~= be_bytes(info.length as nat, 4));
}

/// A triple that was read is written back.
proof fn lemma_block_info_unparse(bytes: Seq<u8>)
    requires
        bytes.len() == 12,
    ensures
        block_info_bytes(parse_block_info(bytes)) == bytes,
{
    lemma_be_limits();
    lemma_be_value_bound(bytes.subrange(0, 4));
    lemma_be_value_bound(bytes.subrange(4, 8));
    lemma_be_value_bound(bytes.subrange(8, 12));
    lemma_be_bytes_of_value(bytes.subrange(0, 4));
    lemma_be_bytes_of_value(bytes.subrange(4, 8));
    lemma_be_bytes_of_value(bytes.subrange(8, 12));
    assert(block_info_bytes(parse_block_info(bytes)) =~= bytes);
}

/// A body that was written is read back.
proof fn lemma_body_round_trip(message: MessageView)
    requires
        message !is KeepAlive,
    ensures
        body_bytes(message).len() > 0,
        parse_body(body_bytes(message)) == Ok::<MessageView, Seq<char>>(message),
{
    lemma_encoded_len(message);
    lemma_be_limits();
    let body = body_bytes(message);
    let payload = body.skip(1);
    match message {
        MessageView::Have(index) => {
            lemma_be_value_of_bytes(index as nat, 4);
            assert(payload =~= be_bytes(index as nat, 4));
        },
        MessageView::Bitfield(bits) => {
            assert(payload =~= bits);
        },
        MessageView::Request(info) => {
            lemma_block_info_round_trip(info);
            assert(payload =~= block_info_bytes(info));
        },
        MessageView::Cancel(info) => {
            lemma_block_info_round_trip(info);
            assert(payload =~= block_info_bytes(info));
        },
        MessageView::Piece { index, begin, data } => {
            lemma_be_value_of_bytes(index as nat, 4);
            lemma_be_value_of_bytes(begin as nat, 4);
            assert(payload.subrange(0, 4) =~= be_bytes(index as nat, 4));
            assert(payload.subrange(4, 8) =~= be_bytes(begin as nat, 4));
            assert(payload.skip(8) =~= data);
        },
        MessageView::Port(port) => {
            lemma_be_value_of_bytes(port as nat, 2);
            assert(payload =~= be_bytes(port as nat, 2));
        },
        _ => {},
    }
}

/// A body that was read is written back.
proof fn lemma_body_unparse(body: Seq<u8>)
    requires
        body.len() > 0,
        parse_body(body) is Ok,
    ensures
        parse_body(body)->Ok_0 !is KeepAlive,
        body_bytes(parse_body(body)->Ok_0) == body,
{
    lemma_be_limits();
    let message = parse_body(body)->Ok_0;
    let payload = body.skip(1);
    match message {
        MessageView::Have(_) => {
            lemma_be_value_bound(payload);
            lemma_be_bytes_of_value(payload);
        },
        MessageView::Request(_) => lemma_block_info_unparse(payload),
        MessageView::Cancel(_) => lemma_block_info_unparse(payload),
        MessageView::Piece { .. } => {
            lemma_be_value_bound(payload.subrange(0, 4));
            lemma_be_value_bound(payload.subrange(4, 8));
            lemma_be_bytes_of_value(payload.subrange(0, 4));
            lemma_be_bytes_of_value(payload.subrange(4, 8));
        },
        MessageView::Port(_) => {
            lemma_be_value_bound(payload);
            lemma_be_bytes_of_value(payload);
        },
        _ => {},
    }
    assert(body_bytes(message) =~= body);
}

/// The encoder writes the message's frame, wherever the bitfield or the data is short enough
/// for its length to fit in 32 bits.
pub proof fn law_encoder_writes_the_frame(message: MessageView)
    requires
        body_bytes(message).len() <= u32::MAX,
    ensures
        encoded_bytes(message) == frame_bytes(message),
{
    lemma_encoded_len(message);
}

/// Decoding undoes encoding: a message whose body is within the size limit is read back from
/// its frame, whatever follows it, and exactly what follows stays in the buffer.
pub proof fn law_decode_undoes_encode(message: MessageView, rest: Seq<u8>)
    requires
        body_bytes(message).len() <= MAX_MESSAGE_LEN,
    ensures
        parse_front(encoded_bytes(message) + rest) == Front::Message(message, rest),
{
    law_encoder_writes_the_frame(message);
    lemma_encoded_len(message);
    lemma_be_limits();
    let body = body_bytes(message);
    let bytes = encoded_bytes(message) + rest;
    lemma_be_value_of_bytes(body.len(), 4);
    assert(bytes.take(4) =~= be_bytes(body.len(), 4));
    if message is KeepAlive {
        assert(bytes.skip(4) =~= rest);
    } else {
        lemma_body_round_trip(message);
        assert(bytes.subrange(4, 4 + body.len() as int) =~= body);
        assert(bytes.skip(4 + body.len() as int) =~= rest);
    }
}

/// Encoding undoes decoding: the frame of a decoded message and the bytes left over are the
/// bytes that the buffer held.
pub proof fn law_encode_undoes_decode(bytes: Seq<u8>)
    ensures
        match parse_front(bytes) {
            Front::Message(message, rest) => encoded_bytes(message) + rest == bytes,
            _ => true,
        },
{
    match parse_front(bytes) {
        Front::Message(message, rest) => {
            lemma_be_limits();
            lemma_be_value_bound(bytes.take(4));
            lemma_be_bytes_of_value(bytes.take(4));
            let len = be_value(bytes.take(4)) as int;
            if len > 0 {
                lemma_body_unparse(bytes.subrange(4, 4 + len));
            }
            law_encoder_writes_the_frame(message);
            assert(encoded_bytes(message) + rest =~= bytes);
        },
        _ => {},
    }
}

/// A frame that has not arrived in full yields no message and no error: every strict prefix of
/// the frame of a message within the size limit is incomplete.
pub proof fn law_decode_waits_for_the_whole_frame(message: MessageView, arrived: nat)
    requires
        body_bytes(message).len() <= MAX_MESSAGE_LEN,
        arrived < encoded_bytes(message).len(),
    ensures
        parse_front(encoded_bytes(message).take(arrived as int)) is Incomplete,
{
    law_encoder_writes_the_frame(message);
    lemma_encoded_len(message);
    lemma_be_limits();
    let bytes = encoded_bytes(message).take(arrived as int);
    if arrived >= 4 {
        lemma_be_value_of_bytes(body_bytes(message).len(), 4);
        assert(bytes.take(4) =~= be_bytes(body_bytes(message).len(), 4));
    }
}

/// Two messages in a row come out in order, and then what followed them.
pub proof fn law_back_to_back(first: MessageView, second: MessageView, rest: Seq<u8>)
    requires
        body_bytes(first).len() <= MAX_MESSAGE_LEN,
        body_bytes(second).len() <= MAX_MESSAGE_LEN,
    ensures
        parse_front(encoded_bytes(first) + encoded_bytes(second) + rest) == Front::Message(
            first,
            encoded_bytes(second) + rest,
        ),
        parse_front(encoded_bytes(second) + rest) == Front::Message(second, rest),
{
    law_decode_undoes_encode(first, encoded_bytes(second) + rest);
    law_decode_undoes_encode(second, rest);
    assert(encoded_bytes(first) + encoded_bytes(second) + rest =~= encoded_bytes(first) + (
    encoded_bytes(second) + rest));
}

} // verus!
