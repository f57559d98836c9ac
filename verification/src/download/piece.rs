//! Piece/block geometry and single-piece assembly.
//!
//! A torrent's content is split into fixed-size *pieces* (the final one may be shorter). Each
//! piece is downloaded as a sequence of fixed-size *blocks* (16 KiB; the final block of a piece
//! may be shorter). [`Geometry`] does the index arithmetic; [`PieceAssembler`] collects a single
//! piece's blocks and exposes the assembled bytes for hashing.

use vstd::prelude::*;
use bytes::Bytes;
use crate::buffer::{bytes_from_vec, shared};
use crate::download::bitfield::{all_present, count_present, law_count_after_set, lemma_count_present};
use crate::error::{Error, Fault, Result};
use crate::metainfo::{length_fits, total_length_of, Info, InfoView};
use crate::peer::message::low_u32;
use crate::peer::BlockInfo;
use crate::text::{decimal, push_decimal};

verus! {

/// Standard block size for requests: 16 KiB.
pub const BLOCK_SIZE: u32 = 16384;

/// The sizes of a torrent, as numbers.
pub struct GeometryView {
    pub total_length: nat,
    pub piece_length: nat,
    pub num_pieces: nat,
    pub last_piece_length: nat,
}

impl GeometryView {
    /// All pieces but the last have the nominal length, the last one has at least one byte and
    /// no more than the nominal length, and together they are the whole content.
    pub open spec fn consistent(self) -> bool {
        &&& 0 < self.piece_length <= u32::MAX
        &&& 0 < self.num_pieces <= u32::MAX
        &&& 0 < self.last_piece_length <= self.piece_length
        &&& self.total_length == (self.num_pieces - 1) * self.piece_length
            + self.last_piece_length
        &&& self.total_length <= u64::MAX
    }

    /// Length in bytes of the piece at `index`.
    pub open spec fn piece_len(self, index: nat) -> nat {
        if index + 1 == self.num_pieces {
            self.last_piece_length
        } else {
            self.piece_length
        }
    }

    /// Where piece `index` begins in the content.
    pub open spec fn offset(self, index: nat) -> nat {
        index * self.piece_length
    }

    /// Number of blocks of the piece at `index`.
    pub open spec fn blocks(self, index: nat) -> nat {
        block_count(self.piece_len(index))
    }

    /// Where block `block` of a piece begins, and how long it is.
    pub open spec fn block(self, index: nat, block: nat) -> (nat, nat) {
        let begin = block * 16384;
        let left = (self.piece_len(index) - begin) as nat;
        (begin, if left < 16384 {
            left
        } else {
            16384
        })
    }
}

/// Number of blocks in `length` bytes.
pub open spec fn block_count(length: nat) -> nat {
    (length + 16383) / 16384
}

/// The sizes that an info dictionary gives, or why they do not fit together.
pub open spec fn geometry_of(info: InfoView) -> std::result::Result<GeometryView, Fault> {
    match total_length_of(info) {
        Err(fault) => Err(fault),
        Ok(total) => {
            let count = (info.pieces.len() / 20) % 0x1_0000_0000;
            let last = total - (count - 1) * info.piece_length;
            if info.piece_length > u32::MAX {
                Err(Fault::PeerProtocol("piece length exceeds u32"@))
            } else if info.piece_length == 0 {
                Err(Fault::PeerProtocol("piece length is zero"@))
            } else if count == 0 {
                Err(Fault::PeerProtocol("torrent has zero pieces"@))
            } else if last < 0 {
                Err(Fault::PeerProtocol("piece count exceeds total length"@))
            } else if last == 0 || last > info.piece_length {
                Err(
                    Fault::PeerProtocol(
                        "inconsistent total length, piece length, and piece count"@,
                    ),
                )
            } else {
                Ok(
                    GeometryView {
                        total_length: total,
                        piece_length: info.piece_length as nat,
                        num_pieces: count,
                        last_piece_length: last as nat,
                    },
                )
            }
        },
    }
}

/// Immutable size arithmetic for a torrent: how big each piece and block is.
///
/// `Copy` so peer tasks can each hold their own cheap copy.
#[derive(Debug, Clone, Copy, PartialEq, Eq)]
pub struct Geometry {
    total_length: u64,
    piece_length: u32,
    num_pieces: u32,
    last_piece_length: u32,
}

impl View for Geometry {
    type V = GeometryView;

    closed spec fn view(&self) -> GeometryView {
        GeometryView {
            total_length: self.total_length as nat,
            piece_length: self.piece_length as nat,
            num_pieces: self.num_pieces as nat,
            last_piece_length: self.last_piece_length as nat,
        }
    }
}

impl Geometry {
    /// Every geometry is consistent.
    #[verifier::type_invariant]
    pub open spec fn well_formed(self) -> bool {
        self@.consistent()
    }

    /// Derive geometry from a parsed [`Info`].
    pub fn from_info(info: &Info) -> (result: Result<Self>)
        requires
            length_fits(info@),
        ensures
            match geometry_of(info@) {
                Ok(geometry) => result matches Ok(found) && found@ == geometry,
                Err(fault) => result matches Err(error) && error@ == fault,
            },
    {
        let total_length: u64 = match info.total_length() {
            Err(error) => return Err(error),
            Ok(total) => total,
        };
        if info.piece_length > 0xffff_ffff {
            return Err(Error::PeerProtocol("piece length exceeds u32".to_owned()));
        }
        let piece_length: u32 = info.piece_length as u32;
        if piece_length == 0 {
            return Err(Error::PeerProtocol("piece length is zero".to_owned()));
        }
        let num_pieces: u32 = low_u32(info.num_pieces());
        if num_pieces == 0 {
            return Err(Error::PeerProtocol("torrent has zero pieces".to_owned()));
        }
        proof {
            assert((num_pieces - 1) * piece_length <= 0xffff_ffff * 0xffff_ffff)
                by (nonlinear_arith)
                requires
                    0 < num_pieces <= 0xffff_ffff,
                    0 < piece_length <= 0xffff_ffff,
            ;
        }
        let full: u64 = (num_pieces as u64 - 1) * piece_length as u64;
        if total_length < full {
            return Err(Error::PeerProtocol("piece count exceeds total length".to_owned()));
        }
        let last: u64 = total_length - full;
        if last == 0 || last > piece_length as u64 {
            return Err(
                Error::PeerProtocol(
                    "inconsistent total length, piece length, and piece count".to_owned(),
                ),
            );
        }
        Ok(Geometry { total_length, piece_length, num_pieces, last_piece_length: last as u32 })
    }

    /// Total content length across all files.
    pub fn total_length(&self) -> (total: u64)
        ensures
            total == self@.total_length,
    {
        self.total_length
    }

    /// Number of pieces.
    pub fn num_pieces(&self) -> (n: u32)
        ensures
            n == self@.num_pieces,
    {
        self.num_pieces
    }

    /// The global byte offset where piece `index` begins in the concatenated torrent stream.
    /// Uses the nominal (full) piece length, not the index's possibly-shorter length.
    pub fn piece_offset(&self, index: u32) -> (offset: u64)
        ensures
            offset == self@.offset(index as nat),
    {
        proof {
            assert(0 <= index * self.piece_length <= 0xffff_ffff * 0xffff_ffff)
                by (nonlinear_arith)
                requires
                    0 <= index <= 0xffff_ffff,
                    0 <= self.piece_length <= 0xffff_ffff,
            ;
        }
        index as u64 * self.piece_length as u64
    }

    /// Length in bytes of the piece at `index` (the last piece is shorter).
    pub fn piece_length(&self, index: u32) -> (length: u32)
        requires
            index < u32::MAX,
        ensures
            length == self@.piece_len(index as nat),
    {
        if index + 1 == self.num_pieces {
            self.last_piece_length
        } else {
            self.piece_length
        }
    }

    /// Number of blocks the piece at `index` is divided into.
    pub fn num_blocks(&self, index: u32) -> (blocks: u32)
        requires
            index < u32::MAX,
        ensures
            blocks == self@.blocks(index as nat),
    {
        div_block_size(self.piece_length(index))
    }

    /// The [`BlockInfo`] for block `block_idx` of piece `index`.
    pub fn block_info(&self, index: u32, block_idx: u32) -> (info: BlockInfo)
        requires
            index < u32::MAX,
            block_idx * 16384 <= self@.piece_len(index as nat),
        ensures
            info.index == index,
            info.begin == self@.block(index as nat, block_idx as nat).0,
            info.length == self@.block(index as nat, block_idx as nat).1,
    {
        proof {
            use_type_invariant(self);
        }
        let piece_len: u32 = self.piece_length(index);
        let begin: u32 = block_idx * BLOCK_SIZE;
        let left: u32 = piece_len - begin;
        let length: u32 = if left < BLOCK_SIZE {
            left
        } else {
            BLOCK_SIZE
        };
        BlockInfo { index, begin, length }
    }
}

/// The number of blocks in `length` bytes.
fn div_block_size(length: u32) -> (blocks: u32)
    ensures
        blocks == block_count(length as nat),
{
    if length % BLOCK_SIZE == 0 {
        length / BLOCK_SIZE
    } else {
        length / BLOCK_SIZE + 1
    }
}

/// The pieces lie side by side: each begins where the one before it ends, the first at the
/// start of the content, and the last one ends with the content.
pub proof fn law_pieces_tile_the_content(geometry: GeometryView, index: nat)
    requires
        geometry.consistent(),
        index < geometry.num_pieces,
    ensures
        geometry.offset(0) == 0,
        geometry.piece_len(index) > 0,
        index + 1 < geometry.num_pieces ==> geometry.offset(index) + geometry.piece_len(index)
            == geometry.offset(index + 1),
        index + 1 == geometry.num_pieces ==> geometry.offset(index) + geometry.piece_len(index)
            == geometry.total_length,
{
    assert((index + 1) * geometry.piece_length == index * geometry.piece_length
        + geometry.piece_length) by (nonlinear_arith);
}

/// Every byte of the content lies in exactly one piece.
pub proof fn law_every_byte_in_one_piece(geometry: GeometryView, at: nat) -> (index: nat)
    requires
        geometry.consistent(),
        at < geometry.total_length,
    ensures
        index < geometry.num_pieces,
        geometry.offset(index) <= at < geometry.offset(index) + geometry.piece_len(index),
        forall|other: nat|
            other < geometry.num_pieces && geometry.offset(other) <= at < geometry.offset(other)
                + #[trigger] geometry.piece_len(other) ==> other == index,
{
    let p = geometry.piece_length as int;
    let n = geometry.num_pieces as int;
    let q = at as int / p;
    assert(p * q <= at < p * q + p) by (nonlinear_arith)
        requires
            p > 0,
            q == at as int / p,
            at >= 0,
    ;
    assert(q >= 0) by (nonlinear_arith)
        requires
            p > 0,
            q == at as int / p,
            at >= 0,
    ;
    assert(q < n) by (nonlinear_arith)
        requires
            p * q <= at,
            at < (n - 1) * p + geometry.last_piece_length,
            geometry.last_piece_length <= p,
            p > 0,
    ;
    assert(q * p == p * q) by (nonlinear_arith);
    let index = q as nat;
    assert(geometry.offset(index) == q * p);
    assert forall|other: nat|
        other < geometry.num_pieces && geometry.offset(other) <= at < geometry.offset(other)
            + #[trigger] geometry.piece_len(other) implies other == index by {
        let o = other as int;
        assert(o == q) by (nonlinear_arith)
            requires
                o * p <= at < o * p + p,
                p * q <= at < p * q + p,
                p > 0,
        ;
    }
    index
}

/// The blocks of a piece lie side by side: each begins where the one before it ends, none is
/// empty or longer than the block size, and the last one ends with the piece.
pub proof fn law_blocks_tile_the_piece(geometry: GeometryView, index: nat, block: nat)
    requires
        geometry.consistent(),
        index < geometry.num_pieces,
        block < geometry.blocks(index),
    ensures
        geometry.block(index, 0).0 == 0,
        0 < geometry.block(index, block).1 <= BLOCK_SIZE,
        block + 1 < geometry.blocks(index) ==> geometry.block(index, block).0 + geometry.block(
            index,
            block,
        ).1 == geometry.block(index, block + 1).0,
        block + 1 == geometry.blocks(index) ==> geometry.block(index, block).0 + geometry.block(
            index,
            block,
        ).1 == geometry.piece_len(index),
{
}

/// Length of block `block` in a piece of `length` bytes.
pub open spec fn block_len(length: nat, block: nat) -> nat {
    let left = (length - block * 16384) as nat;
    if left < 16384 {
        left
    } else {
        16384
    }
}

/// A piece that is being put together.
#[verifier::ext_equal]
pub struct AssemblyView {
    /// The piece index.
    pub index: u32,
    /// The bytes so far; zero where nothing was received.
    pub data: Seq<u8>,
    /// Which blocks were received.
    pub received: Seq<bool>,
}

impl AssemblyView {
    /// One flag per block.
    pub open spec fn consistent(self) -> bool {
        &&& self.data.len() <= u32::MAX
        &&& self.received.len() == block_count(self.data.len())
    }

    /// Nothing received yet.
    pub open spec fn start(index: u32, length: u32) -> AssemblyView {
        AssemblyView {
            index,
            data: Seq::new(length as nat, |i: int| 0u8),
            received: Seq::new(block_count(length as nat), |i: int| false),
        }
    }

    /// Whether a block of `len` bytes at `begin` is turned down: it does not begin where a block
    /// of the piece does, or it does not fit.
    pub open spec fn rejects(self, begin: u32, len: nat) -> Option<Seq<char>> {
        if begin % BLOCK_SIZE != 0 {
            Some("block offset "@ + decimal(begin as nat) + " is not block-aligned"@)
        } else if begin >= self.data.len() || begin + len > self.data.len() {
            Some(
                "block ["@ + decimal(begin as nat) + ", "@ + decimal(begin as nat) + "+"@
                    + decimal(len) + ") exceeds piece length "@ + decimal(self.data.len()),
            )
        } else {
            None
        }
    }

    /// Whether the block at `begin` was received.
    pub open spec fn has_block(self, begin: u32) -> bool {
        self.received[begin as int / 16384]
    }

    /// Whether a block of `len` bytes that would be put into place at `begin` is shorter than its
    /// place.
    pub open spec fn falls_short(self, begin: u32, len: nat) -> bool {
        &&& self.rejects(begin, len) is None
        &&& !self.has_block(begin)
        &&& len < block_len(self.data.len(), begin as nat / 16384)
    }

    /// The block copied into place.
    pub open spec fn with_block(self, begin: u32, block: Seq<u8>) -> AssemblyView {
        AssemblyView {
            index: self.index,
            data: self.data.take(begin as int) + block + self.data.skip(begin + block.len()),
            received: self.received.update(begin as int / 16384, true),
        }
    }

    /// After a block that is not turned down: copied into place, unless it was received before.
    pub open spec fn after_delivery(self, begin: u32, block: Seq<u8>) -> AssemblyView {
        if self.has_block(begin) {
            self
        } else {
            self.with_block(begin, block)
        }
    }
}

/// Accumulates the blocks of a single piece until it is whole.
#[derive(Debug)]
pub struct PieceAssembler {
    index: u32,
    length: u32,
    buf: Vec<u8>,
    received: Vec<bool>,
    remaining: u32,
}

impl View for PieceAssembler {
    type V = AssemblyView;

    closed spec fn view(&self) -> AssemblyView {
        AssemblyView { index: self.index, data: self.buf@, received: self.received@ }
    }
}

impl PieceAssembler {
    /// The buffer has the piece's length, there is one flag per block, and `remaining` counts
    /// the blocks that are missing.
    #[verifier::type_invariant]
    spec fn well_formed(self) -> bool {
        &&& self.buf@.len() == self.length
        &&& self.received@.len() == block_count(self.length as nat)
        &&& self.remaining + count_present(self.received@) == self.received@.len()
    }

    /// Start assembling piece `index`, which is `length` bytes long.
    pub fn new(index: u32, length: u32) -> (assembler: Self)
        ensures
            assembler@ == AssemblyView::start(index, length),
    {
        let num_blocks: u32 = div_block_size(length);
        let buf: Vec<u8> = vec![0u8; length as usize];
        let received: Vec<bool> = vec![false; num_blocks as usize];
        proof {
            lemma_none_present(received@);
            assert(buf@ =~= AssemblyView::start(index, length).data);
            assert(received@ =~= AssemblyView::start(index, length).received);
        }
        PieceAssembler { index, length, buf, received, remaining: num_blocks }
    }

    /// The piece index being assembled.
    pub fn index(&self) -> (index: u32)
        ensures
            index == self@.index,
    {
        self.index
    }

    /// Copy a received block into place.
    ///
    /// `begin` must be block-aligned and within bounds, and `data` must fit. Re-delivering an
    /// already-received block is a harmless no-op (it does not double-count toward completion).
    pub fn add_block(&mut self, begin: u32, data: &[u8]) -> (result: Result<()>)
        ensures
            match old(self)@.rejects(begin, data@.len()) {
                Some(text) => {
                    &&& result matches Err(error)
                    &&& error@ == Fault::PeerProtocol(text)
                    &&& *final(self) == *old(self)
                },
                None => {
                    &&& result is Ok
                    &&& if old(self)@.has_block(begin) {
                        *final(self) == *old(self)
                    } else {
                        final(self)@ == old(self)@.with_block(begin, data@)
                    }
                },
            },
    {
        proof {
            use_type_invariant(&*self);
        }
        if begin % BLOCK_SIZE != 0 {
            let mut text = "block offset ".to_owned();
            push_decimal(&mut text, begin as u64);
            text.append(" is not block-aligned");
            return Err(Error::PeerProtocol(text));
        }
        if begin >= self.length || data.len() as u64 > (self.length - begin) as u64 {
            let mut text = "block [".to_owned();
            push_decimal(&mut text, begin as u64);
            text.append(", ");
            push_decimal(&mut text, begin as u64);
            text.append("+");
            push_decimal(&mut text, data.len() as u64);
            text.append(") exceeds piece length ");
            push_decimal(&mut text, self.length as u64);
            return Err(Error::PeerProtocol(text));
        }
        let block_idx: usize = (begin / BLOCK_SIZE) as usize;
        if self.received[block_idx] {
            return Ok(());
        }
        let ghost before = self@;
        let mut i: usize = 0;
        while i < data.len()
            invariant
                i <= data@.len(),
                begin + data@.len() <= self.length,
                self.well_formed(),
                self.index == before.index,
                self.length == before.data.len(),
                self.received@ == before.received,
                self.buf@.len() == before.data.len(),
                forall|k: int|
                    0 <= k < self.buf@.len() ==> #[trigger] self.buf@[k] == (if begin <= k < begin
                        + i {
                        data@[k - begin]
                    } else {
                        before.data[k]
                    }),
            decreases data@.len() - i,
        {
            self.buf[begin as usize + i] = data[i];
            i += 1;
        }
        assert(self.buf@ =~= before.with_block(begin, data@).data);
        proof {
            law_count_after_set(self.received@, block_idx as int);
            lemma_count_present(self.received@.update(block_idx as int, true));
        }
        let mut whole = PieceAssembler::new(0, 0);
        std::mem::swap(self, &mut whole);
        let PieceAssembler { index, length, buf, mut received, remaining } = whole;
        received.set(block_idx, true);
        *self = PieceAssembler { index, length, buf, received, remaining: remaining - 1 };
        Ok(())
    }

    /// Whether a block of `len` bytes that [`add_block`](Self::add_block) would put into place at
    /// `begin` is shorter than its place.
    pub fn falls_short(&self, begin: u32, len: usize) -> (short: bool)
        ensures
            short == self@.falls_short(begin, len as nat),
    {
        proof {
            use_type_invariant(self);
        }
        if begin % BLOCK_SIZE != 0 || begin >= self.length || len as u64 > (self.length
            - begin) as u64 {
            return false;
        }
        let left: u32 = self.length - begin;
        let place: u32 = if left < BLOCK_SIZE {
            left
        } else {
            BLOCK_SIZE
        };
        !self.received[(begin / BLOCK_SIZE) as usize] && (len as u64) < place as u64
    }

    /// Whether every block of the piece has been received.
    pub fn is_complete(&self) -> (complete: bool)
        ensures
            complete == all_present(self@.received),
    {
        proof {
            use_type_invariant(self);
            lemma_count_present(self.received@);
        }
        self.remaining == 0
    }

    /// The assembled bytes so far (meaningful once [`is_complete`] is true).
    ///
    /// [`is_complete`]: PieceAssembler::is_complete
    pub fn data(&self) -> (data: &[u8])
        ensures
            data@ == self@.data,
    {
        self.buf.as_slice()
    }

    /// Consume the assembler, yielding the piece bytes.
    pub fn into_bytes(self) -> (bytes: Bytes)
        ensures
            shared(bytes) == self@.data,
    {
        bytes_from_vec(self.buf)
    }
}

/// Delivering a block again changes nothing, whatever bytes it brings the second time; whether it
/// is turned down does not depend on what was received.
pub proof fn law_redelivery_changes_nothing(
    assembly: AssemblyView,
    begin: u32,
    first: Seq<u8>,
    second: Seq<u8>,
)
    requires
        assembly.consistent(),
        assembly.rejects(begin, first.len()) is None,
    ensures
        ({
            let once = assembly.after_delivery(begin, first);
            &&& once.rejects(begin, second.len()) == assembly.rejects(begin, second.len())
            &&& once.has_block(begin)
            &&& once.after_delivery(begin, second) == once
        }),
{
}

/// Whether the bytes of every block that was received are those of `content`.
pub open spec fn assembled_from(assembly: AssemblyView, content: Seq<u8>) -> bool {
    &&& assembly.consistent()
    &&& assembly.data.len() == content.len()
    &&& forall|k: int|
        0 <= k < content.len() && assembly.received[k / 16384] ==> #[trigger] assembly.data[k]
            == content[k]
}

/// A piece put together from the blocks of `content`, in any order and with repeats, holds only
/// bytes of `content` where something was received; when no block is missing it is `content`.
pub proof fn law_assembly_keeps_content(
    assembly: AssemblyView,
    content: Seq<u8>,
    block: nat,
    length: nat,
)
    requires
        assembled_from(assembly, content),
        block < block_count(content.len()),
        length == (if content.len() - block * 16384 < 16384 {
            content.len() - block * 16384
        } else {
            16384
        }),
    ensures
        assembly.rejects((block * 16384) as u32, length) is None,
        assembled_from(
            assembly.after_delivery(
                (block * 16384) as u32,
                content.subrange(block as int * 16384, block as int * 16384 + length),
            ),
            content,
        ),
        all_present(assembly.received) ==> assembly.data == content,
{
    let begin = (block * 16384) as u32;
    let bytes = content.subrange(block as int * 16384, block as int * 16384 + length);
    let after = assembly.after_delivery(begin, bytes);
    assert(begin == block * 16384);
    assert forall|k: int| 0 <= k < content.len() && after.received[k / 16384] implies #[trigger]
        after.data[k] == content[k] by {
        if assembly.has_block(begin) {
            assert(after == assembly);
        } else if begin <= k < begin + length {
            assert(after.data[k] == bytes[k - begin]);
        } else {
            assert(k / 16384 != block);
            assert(assembly.received[k / 16384]);
            assert(after.data[k] == assembly.data[k]);
        }
    }
    if all_present(assembly.received) {
        assert forall|k: int| 0 <= k < content.len() implies assembly.data[k] == content[k] by {
            assert(assembly.received[k / 16384]);
        }
        assert(assembly.data =~= content);
    }
}

proof fn lemma_none_present(flags: Seq<bool>)
    requires
        forall|i: int| 0 <= i < flags.len() ==> !flags[i],
    ensures
        count_present(flags) == 0,
    decreases flags.len(),
{
    if flags.len() > 0 {
        lemma_none_present(flags.drop_last());
    }
}

} // verus!
