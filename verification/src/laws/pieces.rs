//! Bitfields, the sizes of pieces and blocks, and a piece that is put together.

use vstd::prelude::*;
use bytes::Bytes;
use crate::buffer::shared;
use crate::download::bitfield::{
    bitfield_len, count_present, law_packed_bits_are_exact, lemma_count_present, piece_bit,
    unpack_bits, Bitfield,
};
use crate::download::piece::{AssemblyView, Geometry, PieceAssembler};
use crate::download::state::PieceTracker;
use crate::error::Result;
use crate::laws::{lemma_total, total_of};
use crate::laws::torrent::has_one_form;
use crate::metainfo::Info;
use crate::peer::BlockInfo;

verus! {

// Bitfields.

/// The value of a bit in its byte: the first bit of a byte is its highest.
pub open spec fn place(bit: int) -> int {
    if bit == 0 {
        128
    } else if bit == 1 {
        64
    } else if bit == 2 {
        32
    } else if bit == 3 {
        16
    } else if bit == 4 {
        8
    } else if bit == 5 {
        4
    } else if bit == 6 {
        2
    } else {
        1
    }
}

/// Whether bit `i` is set, counted from the highest bit of the first byte.
pub open spec fn bit_set(bytes: Seq<u8>, i: int) -> bool {
    (bytes[i / 8] as int / place(i % 8)) % 2 == 1
}

/// Whether `len` bytes are just enough for `n` bits.
pub open spec fn just_holds(len: nat, n: nat) -> bool {
    n <= 8 * len < n + 8
}

proof fn lemma_masked(byte: u8, k: u8)
    by (bit_vector)
    requires
        k < 8,
    ensures
        (byte & (0x80u8 >> k) != 0) == ((k == 0 && (byte / 128) % 2 == 1) || (k == 1 && (byte / 64)
            % 2 == 1) || (k == 2 && (byte / 32) % 2 == 1) || (k == 3 && (byte / 16) % 2 == 1) || (k
            == 4 && (byte / 8) % 2 == 1) || (k == 5 && (byte / 4) % 2 == 1) || (k == 6 && (byte / 2)
            % 2 == 1) || (k == 7 && byte % 2 == 1)),
{
}

pub(crate) proof fn lemma_bit(bytes: Seq<u8>, i: int)
    requires
        0 <= i < 8 * bytes.len(),
    ensures
        piece_bit(bytes, i) == bit_set(bytes, i),
{
    let byte = bytes[i / 8];
    lemma_masked(byte, (i % 8) as u8);
}

pub(crate) proof fn lemma_bits(bytes: Seq<u8>, n: nat)
    ensures
        bytes.len() == bitfield_len(n) <==> just_holds(bytes.len(), n),
        just_holds(bytes.len(), n) ==> forall|i: int|
            0 <= i < n ==> #[trigger] unpack_bits(bytes, n)[i] == bit_set(bytes, i),
{
    if just_holds(bytes.len(), n) {
        assert forall|i: int| 0 <= i < n implies #[trigger] unpack_bits(bytes, n)[i] == bit_set(
            bytes,
            i,
        ) by {
            lemma_bit(bytes, i);
        }
    }
}

/// Bytes are read as a bitfield just where there are as many as the pieces need, and then piece
/// `i` is there just where bit `i` is set.
pub proof fn law_bitfields_are_read(bytes: Vec<u8>, num_pieces: usize, result: Result<Bitfield>)
    requires
        call_ensures(Bitfield::from_bytes, (bytes, num_pieces), result),
    ensures
        result is Ok <==> just_holds(bytes@.len(), num_pieces as nat),
        result matches Ok(bitfield) ==> {
            &&& bitfield@.len() == num_pieces
            &&& forall|i: int|
                0 <= i < num_pieces ==> #[trigger] bitfield@[i] == bit_set(bytes@, i)
        },
        result matches Err(error) ==> error@ is PeerProtocol,
{
    lemma_bits(bytes@, num_pieces as nat);
}

/// What is sent of a bitfield says of each piece whether it is there.
pub proof fn law_bitfields_are_sent(bitfield: &Bitfield, bytes: &[u8], message: Bytes)
    requires
        call_ensures(Bitfield::as_bytes, (bitfield,), bytes),
        call_ensures(Bitfield::to_message_bytes, (bitfield,), message),
    ensures
        just_holds(bytes@.len(), bitfield@.len()),
        forall|i: int| 0 <= i < bitfield@.len() ==> #[trigger] bitfield@[i] == bit_set(bytes@, i),
        shared(message) == bytes@,
{
    lemma_bits(bytes@, bitfield@.len());
    assert forall|i: int| 0 <= i < bitfield@.len() implies #[trigger] bitfield@[i] == bit_set(
        bytes@,
        i,
    ) by {
        assert(bitfield@[i] == unpack_bits(bytes@, bitfield@.len())[i]);
    }
}

/// What we send of our own pieces has a bit set for each piece that we have and no other bit, not
/// even behind the last piece.
pub proof fn law_our_bitfield_is_sent(tracker: &PieceTracker, have: &Bitfield, bytes: &[u8])
    requires
        call_ensures(PieceTracker::have_bitfield, (tracker,), have),
        call_ensures(Bitfield::as_bytes, (have,), bytes),
    ensures
        just_holds(bytes@.len(), tracker@.have.len()),
        forall|i: int|
            0 <= i < 8 * bytes@.len() ==> (#[trigger] bit_set(bytes@, i) <==> i
                < tracker@.have.len() && tracker@.have[i]),
{
    lemma_bits(bytes@, have@.len());
    assert forall|i: int| 0 <= i < 8 * bytes@.len() implies (#[trigger] bit_set(bytes@, i) <==> i
        < tracker@.have.len() && tracker@.have[i]) by {
        lemma_bit(bytes@, i);
        law_packed_bits_are_exact(tracker@.have, i);
    }
}

/// A new bitfield has one flag for each piece, and no piece is there.
pub proof fn law_new_bitfields_are_empty(num_pieces: usize, bitfield: Bitfield)
    requires
        call_ensures(Bitfield::new, (num_pieces,), bitfield),
    ensures
        bitfield@.len() == num_pieces,
        forall|i: int| 0 <= i < num_pieces ==> !#[trigger] bitfield@[i],
{
}

/// Setting a piece puts it there and changes nothing else; beyond the last piece there is nothing
/// to set, and no piece that is there.
pub proof fn law_set_pieces_are_there(
    bitfield: &mut Bitfield,
    index: usize,
    result: (),
    probe: &Bitfield,
    at: usize,
    present: bool,
)
    requires
        call_ensures(Bitfield::set, (bitfield, index), result),
        call_ensures(Bitfield::has, (probe, at), present),
        probe@ == final(bitfield)@,
    ensures
        final(bitfield)@.len() == old(bitfield)@.len(),
        forall|i: int|
            0 <= i < old(bitfield)@.len() ==> (#[trigger] final(bitfield)@[i] <==> i == index
                || old(bitfield)@[i]),
        present <==> at < old(bitfield)@.len() && (at == index || old(bitfield)@[at as int]),
{
}

/// The pieces that are there.
pub open spec fn present(pieces: Seq<bool>) -> Set<int> {
    Set::new(|i: int| 0 <= i < pieces.len() && pieces[i])
}

pub(crate) proof fn lemma_present(pieces: Seq<bool>)
    ensures
        present(pieces).finite(),
        present(pieces).len() == count_present(pieces),
    decreases pieces.len(),
{
    if pieces.len() == 0 {
        assert(present(pieces) =~= Set::<int>::empty());
    } else {
        let front = pieces.drop_last();
        lemma_present(front);
        let last = pieces.len() - 1;
        if pieces[last] {
            assert(present(pieces) =~= present(front).insert(last));
        } else {
            assert(present(pieces) =~= present(front));
        }
    }
}

/// The count is the number of pieces that are there, and a bitfield is complete just where none is
/// missing.
pub proof fn law_pieces_are_counted(bitfield: &Bitfield, n: usize, complete: bool, all: usize)
    requires
        call_ensures(Bitfield::count, (bitfield,), n),
        call_ensures(Bitfield::is_complete, (bitfield,), complete),
        call_ensures(Bitfield::num_pieces, (bitfield,), all),
    ensures
        n == present(bitfield@).len(),
        complete <==> n == all,
        complete <==> forall|i: int| 0 <= i < all ==> #[trigger] bitfield@[i],
{
    lemma_present(bitfield@);
    lemma_count_present(bitfield@);
}

// Sizes.

/// The sizes of a torrent fit together just where the content is cut into so many pieces of the
/// given length, none of them empty and only the last one shorter.
pub proof fn law_sizes_fit_together(info: &Info, result: Result<Geometry>)
    requires
        call_ensures(Geometry::from_info, (info,), result),
        info@.pieces.len() / 20 <= u32::MAX,
        total_of(info@) <= u64::MAX,
    ensures
        ({
            let n = info@.pieces.len() as int / 20;
            let length = info@.piece_length as int;
            let total = total_of(info@);
            &&& result is Ok <==> {
                &&& has_one_form(info@)
                &&& 0 < length <= u32::MAX
                &&& 0 < n
                &&& (n - 1) * length < total <= n * length
            }
            &&& result matches Ok(geometry) ==> {
                &&& geometry@.consistent()
                &&& geometry@.num_pieces == n
                &&& geometry@.piece_length == length
                &&& geometry@.total_length == total
                &&& geometry@.last_piece_length == total - (n - 1) * length
            }
        }),
{
    lemma_total(info@);
    let n = info@.pieces.len() as int / 20;
    let length = info@.piece_length as int;
    assert(n * length == (n - 1) * length + length) by (nonlinear_arith);
}

/// The pieces lie side by side and are the whole content: each begins as many piece lengths behind
/// the start as its index says, all but the last have that length, and the last one ends with the
/// content.
pub proof fn law_pieces_lie_side_by_side(
    geometry: &Geometry,
    index: u32,
    offset: u64,
    length: u32,
    total: u64,
    n: u32,
)
    requires
        geometry@.consistent(),
        call_ensures(Geometry::piece_offset, (geometry, index), offset),
        call_ensures(Geometry::piece_length, (geometry, index), length),
        call_ensures(Geometry::total_length, (geometry,), total),
        call_ensures(Geometry::num_pieces, (geometry,), n),
    ensures
        n == geometry@.num_pieces,
        total == geometry@.total_length,
        offset == index * geometry@.piece_length,
        index + 1 < n ==> length == geometry@.piece_length && offset + length == (index + 1)
            * geometry@.piece_length,
        index + 1 == n ==> offset + length == total,
        index < n ==> length > 0,
{
    assert((index + 1) * geometry@.piece_length == index * geometry@.piece_length
        + geometry@.piece_length) by (nonlinear_arith);
}

/// The blocks lie side by side and are the whole piece: each begins as many block sizes behind the
/// start as its number says, all but the last are of that size, and the last one ends with the
/// piece.
pub proof fn law_blocks_lie_side_by_side(
    geometry: &Geometry,
    index: u32,
    length: u32,
    blocks: u32,
    block: u32,
    request: BlockInfo,
)
    requires
        geometry@.consistent(),
        index < geometry@.num_pieces,
        call_ensures(Geometry::piece_length, (geometry, index), length),
        call_ensures(Geometry::num_blocks, (geometry, index), blocks),
        call_ensures(Geometry::block_info, (geometry, index, block), request),
    ensures
        (blocks - 1) * 16384 < length <= blocks * 16384,
        block < blocks ==> {
            &&& request.index == index
            &&& request.begin == block * 16384
            &&& block + 1 < blocks ==> request.length == 16384
            &&& block + 1 == blocks ==> request.begin + request.length == length
            &&& 0 < request.length <= 16384
        },
{
}

// A piece that is put together.

/// A piece that is begun has its length, and nothing of it was received.
pub proof fn law_pieces_begin_empty(
    index: u32,
    length: u32,
    piece: PieceAssembler,
    probe: &PieceAssembler,
    complete: bool,
    shown: u32,
)
    requires
        call_ensures(PieceAssembler::new, (index, length), piece),
        call_ensures(PieceAssembler::is_complete, (probe,), complete),
        call_ensures(PieceAssembler::index, (probe,), shown),
        probe@ == piece@,
    ensures
        shown == index,
        piece@.data.len() == length,
        (piece@.received.len() - 1) * 16384 < length <= piece@.received.len() * 16384,
        forall|b: int| 0 <= b < piece@.received.len() ==> !#[trigger] piece@.received[b],
        complete <==> length == 0,
{
    if length > 0 {
        assert(!piece@.received[0]);
    }
}

/// Whether a block of `len` bytes at `begin` has a place in a piece of `length` bytes.
pub open spec fn has_place(begin: int, len: int, length: int) -> bool {
    begin % 16384 == 0 && begin < length && begin + len <= length
}

/// A piece after a block was put into place: its bytes stand where they belong and everything else
/// is as it was, and where the block was there before, all of it is.
pub open spec fn placed(piece: AssemblyView, begin: int, block: Seq<u8>) -> AssemblyView {
    if piece.received[begin / 16384] {
        piece
    } else {
        AssemblyView {
            index: piece.index,
            data: Seq::new(
                piece.data.len(),
                |k: int|
                    if begin <= k < begin + block.len() {
                        block[k - begin]
                    } else {
                        piece.data[k]
                    },
            ),
            received: Seq::new(
                piece.received.len(),
                |b: int| b == begin / 16384 || piece.received[b],
            ),
        }
    }
}

pub(crate) proof fn lemma_placed(piece: AssemblyView, begin: u32, block: Seq<u8>)
    requires
        piece.consistent(),
        has_place(begin as int, block.len() as int, piece.data.len() as int),
    ensures
        placed(piece, begin as int, block) == piece.after_delivery(begin, block),
{
    let after = piece.after_delivery(begin, block);
    let other = placed(piece, begin as int, block);
    if !piece.has_block(begin) {
        assert(after.data =~= other.data);
        assert(after.received =~= other.received);
    }
}

/// A block is taken just where it has a place, and is then put there, unless it was there before;
/// a block that is turned down changes nothing.
pub proof fn law_blocks_are_put_into_place(
    piece: &mut PieceAssembler,
    begin: u32,
    block: &[u8],
    result: Result<()>,
)
    requires
        old(piece)@.consistent(),
        call_ensures(PieceAssembler::add_block, (piece, begin, block), result),
    ensures
        result is Ok <==> has_place(
            begin as int,
            block@.len() as int,
            old(piece)@.data.len() as int,
        ),
        result is Ok ==> final(piece)@ == placed(old(piece)@, begin as int, block@),
        result matches Err(error) ==> error@ is PeerProtocol && final(piece)@ == old(piece)@,
{
    if has_place(begin as int, block@.len() as int, old(piece)@.data.len() as int) {
        lemma_placed(old(piece)@, begin, block@);
    }
}

/// A block falls short just where it has a place that is empty and that it does not fill.
pub proof fn law_short_blocks_are_told(piece: &PieceAssembler, begin: u32, len: usize, short: bool)
    requires
        piece@.consistent(),
        call_ensures(PieceAssembler::falls_short, (piece, begin, len), short),
    ensures
        short <==> {
            &&& has_place(begin as int, len as int, piece@.data.len() as int)
            &&& !piece@.received[begin as int / 16384]
            &&& len < 16384
            &&& begin + len < piece@.data.len()
        },
{
}

/// A piece is complete just where no block is missing; its bytes are those that were put into
/// place.
pub proof fn law_whole_pieces_are_handed_over(
    piece: &PieceAssembler,
    complete: bool,
    data: &[u8],
    whole: PieceAssembler,
    bytes: Bytes,
)
    requires
        call_ensures(PieceAssembler::is_complete, (piece,), complete),
        call_ensures(PieceAssembler::data, (piece,), data),
        call_ensures(PieceAssembler::into_bytes, (whole,), bytes),
        whole@ == piece@,
    ensures
        complete <==> forall|b: int|
            0 <= b < piece@.received.len() ==> #[trigger] piece@.received[b],
        data@ == piece@.data,
        shared(bytes) == piece@.data,
{
}

} // verus!
