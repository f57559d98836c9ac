//! A fixed-size set of pieces, stored as a wire-compatible bitfield.
//!
//! Bits are packed MSB-first: piece `i` lives in byte `i / 8` at bit mask `0x80 >> (i % 8)`.
//! This matches the on-wire `bitfield` message exactly, so converting to/from
//! [`crate::peer::Message::Bitfield`] is a plain byte copy.

use vstd::prelude::*;
use bytes::Bytes;
use crate::buffer::shared;
use crate::error::{Error, Fault, Result};
use crate::text::{decimal, push_decimal};

verus! {

/// Number of bytes needed to hold `num_pieces` bits.
pub open spec fn bitfield_len(num_pieces: nat) -> nat {
    (num_pieces + 7) / 8
}

/// The mask of the bit for piece `index` within its byte.
pub open spec fn piece_mask(index: int) -> u8 {
    0x80u8 >> ((index % 8) as u8)
}

/// Whether the bit for piece `index` is set in the packed `bytes`.
pub open spec fn piece_bit(bytes: Seq<u8>, index: int) -> bool {
    bytes[index / 8] & piece_mask(index) != 0
}

/// The first `num_pieces` bits of the packed `bytes`.
pub open spec fn unpack_bits(bytes: Seq<u8>, num_pieces: nat) -> Seq<bool> {
    Seq::new(num_pieces, |i: int| piece_bit(bytes, i))
}

/// A byte of eight flags, the first one in the highest bit.
pub open spec fn packed_byte(
    f0: bool,
    f1: bool,
    f2: bool,
    f3: bool,
    f4: bool,
    f5: bool,
    f6: bool,
    f7: bool,
) -> u8 {
    (if f0 {
        0x80u8
    } else {
        0u8
    }) | (if f1 {
        0x40u8
    } else {
        0u8
    }) | (if f2 {
        0x20u8
    } else {
        0u8
    }) | (if f3 {
        0x10u8
    } else {
        0u8
    }) | (if f4 {
        0x08u8
    } else {
        0u8
    }) | (if f5 {
        0x04u8
    } else {
        0u8
    }) | (if f6 {
        0x02u8
    } else {
        0u8
    }) | (if f7 {
        0x01u8
    } else {
        0u8
    })
}

/// Whether piece `index` is among `pieces`.
pub open spec fn contains_piece(pieces: Seq<bool>, index: int) -> bool {
    0 <= index < pieces.len() && pieces[index]
}

/// Byte `b` of the packed `pieces`.
pub open spec fn packed_byte_at(pieces: Seq<bool>, b: int) -> u8 {
    packed_byte(
        contains_piece(pieces, 8 * b),
        contains_piece(pieces, 8 * b + 1),
        contains_piece(pieces, 8 * b + 2),
        contains_piece(pieces, 8 * b + 3),
        contains_piece(pieces, 8 * b + 4),
        contains_piece(pieces, 8 * b + 5),
        contains_piece(pieces, 8 * b + 6),
        contains_piece(pieces, 8 * b + 7),
    )
}

/// The packed bytes of `pieces`, their spare bits clear.
pub open spec fn pack_bits(pieces: Seq<bool>) -> Seq<u8> {
    Seq::new(bitfield_len(pieces.len()), |b: int| packed_byte_at(pieces, b))
}

/// How many of `pieces` are present.
pub open spec fn count_present(pieces: Seq<bool>) -> nat
    decreases pieces.len(),
{
    if pieces.len() == 0 {
        0
    } else {
        count_present(pieces.drop_last()) + if pieces.last() {
            1nat
        } else {
            0nat
        }
    }
}

/// Whether all of `pieces` are present.
pub open spec fn all_present(pieces: Seq<bool>) -> bool {
    forall|i: int| 0 <= i < pieces.len() ==> pieces[i]
}

/// The complaint about a bitfield of the wrong length.
pub open spec fn bitfield_len_text(len: nat, num_pieces: nat) -> Seq<char> {
    "bitfield is "@ + decimal(len) + " bytes but "@ + decimal(num_pieces) + " pieces need "@
        + decimal(bitfield_len(num_pieces))
}

/// A set of pieces by index, backed by a packed bitfield. Its model is one `bool` per piece.
#[derive(Debug, PartialEq, Eq)]
pub struct Bitfield {
    bytes: Vec<u8>,
    num_pieces: usize,
}

impl View for Bitfield {
    type V = Seq<bool>;

    closed spec fn view(&self) -> Seq<bool> {
        unpack_bits(self.bytes@, self.num_pieces as nat)
    }
}

impl Clone for Bitfield {
    fn clone(&self) -> (copy: Self)
        ensures
            copy@ == self@,
            copy.packed() == self.packed(),
    {
        proof {
            use_type_invariant(&*self);
        }
        let bytes: Vec<u8> = self.bytes.clone();
        assert(bytes@ =~= self.bytes@);
        Bitfield { bytes, num_pieces: self.num_pieces }
    }
}

impl Bitfield {
    /// The packed bytes have the length that the number of pieces asks for.
    #[verifier::type_invariant]
    spec fn well_formed(self) -> bool {
        self.bytes@.len() == bitfield_len(self.num_pieces as nat)
    }

    /// The packed bytes, spare bits included.
    pub closed spec fn packed(self) -> Seq<u8> {
        self.bytes@
    }

    fn byte_len(num_pieces: usize) -> (len: usize)
        ensures
            len == bitfield_len(num_pieces as nat),
    {
        if num_pieces % 8 == 0 {
            num_pieces / 8
        } else {
            num_pieces / 8 + 1
        }
    }

    /// Create an empty bitfield sized for `num_pieces`.
    pub fn new(num_pieces: usize) -> (bitfield: Self)
        ensures
            bitfield@ == Seq::new(num_pieces as nat, |i: int| false),
            bitfield.packed() == Seq::new(bitfield_len(num_pieces as nat), |i: int| 0u8),
    {
        let bytes: Vec<u8> = vec![0u8; Self::byte_len(num_pieces)];
        assert(bytes@ =~= Seq::new(bitfield_len(num_pieces as nat), |i: int| 0u8));
        let bitfield = Bitfield { bytes, num_pieces };
        proof {
            assert forall|i: int| 0 <= i < num_pieces implies !piece_bit(bytes@, i) by {
                let mask = piece_mask(i);
                assert(0u8 & mask == 0) by (bit_vector);
            }
            assert(bitfield@ =~= Seq::new(num_pieces as nat, |i: int| false));
        }
        bitfield
    }

    /// Wrap raw wire bytes as a bitfield for `num_pieces` pieces.
    ///
    /// Validates the length: a peer must send exactly `ceil(num_pieces / 8)` bytes. (Nonzero
    /// spare/padding bits are not rejected: lenient by design.)
    pub fn from_bytes(bytes: Vec<u8>, num_pieces: usize) -> (result: Result<Self>)
        ensures
            if bytes@.len() == bitfield_len(num_pieces as nat) {
                &&& result matches Ok(bitfield)
                &&& bitfield@ == unpack_bits(bytes@, num_pieces as nat)
                &&& bitfield.packed() == bytes@
            } else {
                &&& result matches Err(error)
                &&& error@ == Fault::PeerProtocol(
                    bitfield_len_text(bytes@.len(), num_pieces as nat),
                )
            },
    {
        let expected: usize = Self::byte_len(num_pieces);
        if bytes.len() != expected {
            let mut text = "bitfield is ".to_owned();
            push_decimal(&mut text, bytes.len() as u64);
            text.append(" bytes but ");
            push_decimal(&mut text, num_pieces as u64);
            text.append(" pieces need ");
            push_decimal(&mut text, expected as u64);
            return Err(Error::PeerProtocol(text));
        }
        Ok(Bitfield { bytes, num_pieces })
    }

    /// Total number of pieces this bitfield can describe.
    pub fn num_pieces(&self) -> (n: usize)
        ensures
            n == self@.len(),
    {
        self.num_pieces
    }

    /// Whether piece `index` is present. Out-of-range indices are `false`.
    pub fn has(&self, index: usize) -> (present: bool)
        ensures
            present == (index < self@.len() && self@[index as int]),
    {
        proof {
            use_type_invariant(&*self);
        }
        if index >= self.num_pieces {
            return false;
        }
        let mask: u8 = mask_of(index);
        self.bytes[index / 8] & mask != 0
    }

    /// Mark piece `index` as present. Out-of-range indices are ignored.
    pub fn set(&mut self, index: usize)
        ensures
            if index < old(self)@.len() {
                &&& final(self)@ == old(self)@.update(index as int, true)
                &&& final(self).packed() == old(self).packed().update(
                    index as int / 8,
                    old(self).packed()[index as int / 8] | piece_mask(index as int),
                )
            } else {
                *final(self) == *old(self)
            },
    {
        proof {
            use_type_invariant(&*self);
        }
        if index >= self.num_pieces {
            return;
        }
        let mask: u8 = mask_of(index);
        let byte: u8 = self.bytes[index / 8];
        let ghost before = self.bytes@;
        self.bytes[index / 8] = byte | mask;
        proof {
            let after = old(self)@.update(index as int, true);
            assert forall|i: int| 0 <= i < self.num_pieces implies self@[i] == after[i] by {
                assert(self@[i] == piece_bit(self.bytes@, i));
                assert(old(self)@[i] == piece_bit(before, i));
                if i / 8 == index as int / 8 {
                    lemma_set_bit(byte, (index % 8) as u8, (i % 8) as u8);
                }
            }
            assert(self@ =~= after);
        }
    }

    /// Count of pieces present.
    pub fn count(&self) -> (n: usize)
        ensures
            n == count_present(self@),
    {
        let mut n: usize = 0;
        let mut i: usize = 0;
        assert(self@.take(0) =~= Seq::<bool>::empty());
        while i < self.num_pieces
            invariant
                i <= self.num_pieces,
                self@.len() == self.num_pieces,
                n <= i,
                n == count_present(self@.take(i as int)),
            decreases self.num_pieces - i,
        {
            if self.has(i) {
                n += 1;
            }
            assert(self@.take(i + 1).drop_last() =~= self@.take(i as int));
            i += 1;
        }
        assert(self@.take(i as int) =~= self@);
        n
    }

    /// Whether every piece is present.
    pub fn is_complete(&self) -> (complete: bool)
        ensures
            complete == all_present(self@),
    {
        proof {
            lemma_count_present(self@);
        }
        self.count() == self.num_pieces
    }

    /// Borrow the packed wire bytes.
    pub fn as_bytes(&self) -> (bytes: &[u8])
        ensures
            bytes@ == self.packed(),
            bytes@.len() == bitfield_len(self@.len()),
            self@ == unpack_bits(bytes@, self@.len()),
    {
        proof {
            use_type_invariant(&*self);
        }
        self.bytes.as_slice()
    }

    /// Copy the bitfield into a wire-ready `Bytes` for a `Bitfield` message.
    pub fn to_message_bytes(&self) -> (bytes: Bytes)
        ensures
            shared(bytes) == self.packed(),
            shared(bytes).len() == bitfield_len(self@.len()),
            self@ == unpack_bits(shared(bytes), self@.len()),
    {
        proof {
            use_type_invariant(&*self);
        }
        Bytes::copy_from_slice(self.bytes.as_slice())
    }
}

fn mask_of(index: usize) -> (mask: u8)
    ensures
        mask == piece_mask(index as int),
{
    let shift: u8 = (index % 8) as u8;
    0x80u8 >> shift
}

/// Setting bit `j` of a byte sets bit `j` and leaves the others alone.
proof fn lemma_set_bit(byte: u8, j: u8, k: u8)
    by (bit_vector)
    requires
        j < 8,
        k < 8,
    ensures
        ((byte | (0x80u8 >> j)) & (0x80u8 >> k) != 0) == (j == k || byte & (0x80u8 >> k) != 0),
{
}

/// Bit `k` of a packed byte is flag `k`.
proof fn lemma_packed_bit(
    f0: bool,
    f1: bool,
    f2: bool,
    f3: bool,
    f4: bool,
    f5: bool,
    f6: bool,
    f7: bool,
    k: u8,
)
    by (bit_vector)
    requires
        k < 8,
    ensures
        (packed_byte(f0, f1, f2, f3, f4, f5, f6, f7) & (0x80u8 >> k) != 0) == ((k == 0 && f0) || (k
            == 1 && f1) || (k == 2 && f2) || (k == 3 && f3) || (k == 4 && f4) || (k == 5 && f5) || (
        k == 6 && f6) || (k == 7 && f7)),
{
}

/// Setting bit `j` of a packed byte packs flag `j` as well.
proof fn lemma_packed_set(
    f0: bool,
    f1: bool,
    f2: bool,
    f3: bool,
    f4: bool,
    f5: bool,
    f6: bool,
    f7: bool,
    j: u8,
)
    by (bit_vector)
    requires
        j < 8,
    ensures
        packed_byte(f0, f1, f2, f3, f4, f5, f6, f7) | (0x80u8 >> j) == packed_byte(
            f0 || j == 0,
            f1 || j == 1,
            f2 || j == 2,
            f3 || j == 3,
            f4 || j == 4,
            f5 || j == 5,
            f6 || j == 6,
            f7 || j == 7,
        ),
{
}

/// No pieces are packed as zeros.
pub proof fn lemma_pack_none(num_pieces: nat)
    ensures
        pack_bits(Seq::new(num_pieces, |i: int| false)) == Seq::new(
            bitfield_len(num_pieces),
            |i: int| 0u8,
        ),
{
    assert(packed_byte(false, false, false, false, false, false, false, false) == 0u8)
        by (bit_vector);
    assert(pack_bits(Seq::new(num_pieces, |i: int| false)) =~= Seq::new(
        bitfield_len(num_pieces),
        |i: int| 0u8,
    ));
}

/// Adding a piece sets its bit in its byte.
proof fn lemma_packed_byte_set(pieces: Seq<bool>, index: int)
    requires
        0 <= index < pieces.len(),
    ensures
        packed_byte_at(pieces.update(index, true), index / 8) == packed_byte_at(pieces, index / 8)
            | piece_mask(index),
{
    let b = index / 8;
    lemma_packed_set(
        contains_piece(pieces, 8 * b),
        contains_piece(pieces, 8 * b + 1),
        contains_piece(pieces, 8 * b + 2),
        contains_piece(pieces, 8 * b + 3),
        contains_piece(pieces, 8 * b + 4),
        contains_piece(pieces, 8 * b + 5),
        contains_piece(pieces, 8 * b + 6),
        contains_piece(pieces, 8 * b + 7),
        (index % 8) as u8,
    );
}

/// Adding a piece sets its bit in the packed bytes.
pub proof fn lemma_pack_set(pieces: Seq<bool>, index: int)
    requires
        0 <= index < pieces.len(),
    ensures
        pack_bits(pieces.update(index, true)) == pack_bits(pieces).update(
            index / 8,
            pack_bits(pieces)[index / 8] | piece_mask(index),
        ),
{
    let after = pieces.update(index, true);
    let set = pack_bits(pieces).update(index / 8, pack_bits(pieces)[index / 8] | piece_mask(index));
    lemma_packed_byte_set(pieces, index);
    assert forall|b: int| 0 <= b < set.len() implies #[trigger] pack_bits(after)[b] == set[b] by {
        if b != index / 8 {
            assert(packed_byte_at(after, b) == packed_byte_at(pieces, b));
        }
    }
    assert(pack_bits(after) =~= set);
}

/// The packed bytes hold exactly the pieces: the bit of each piece tells whether it is there, and
/// the spare bits are clear.
pub proof fn law_packed_bits_are_exact(pieces: Seq<bool>, index: int)
    requires
        0 <= index < 8 * bitfield_len(pieces.len()),
    ensures
        piece_bit(pack_bits(pieces), index) == contains_piece(pieces, index),
        unpack_bits(pack_bits(pieces), pieces.len()) == pieces,
{
    lemma_piece_bit(pieces, index);
    assert forall|i: int| 0 <= i < pieces.len() implies piece_bit(pack_bits(pieces), i)
        == pieces[i] by {
        lemma_piece_bit(pieces, i);
    }
    assert(unpack_bits(pack_bits(pieces), pieces.len()) =~= pieces);
}

proof fn lemma_piece_bit(pieces: Seq<bool>, index: int)
    requires
        0 <= index < 8 * bitfield_len(pieces.len()),
    ensures
        piece_bit(pack_bits(pieces), index) == contains_piece(pieces, index),
{
    let b = index / 8;
    lemma_packed_bit(
        contains_piece(pieces, 8 * b),
        contains_piece(pieces, 8 * b + 1),
        contains_piece(pieces, 8 * b + 2),
        contains_piece(pieces, 8 * b + 3),
        contains_piece(pieces, 8 * b + 4),
        contains_piece(pieces, 8 * b + 5),
        contains_piece(pieces, 8 * b + 6),
        contains_piece(pieces, 8 * b + 7),
        (index % 8) as u8,
    );
}

/// The count of pieces present is at most the number of pieces, and reaches it just where all
/// are present.
pub proof fn lemma_count_present(pieces: Seq<bool>)
    ensures
        count_present(pieces) <= pieces.len(),
        count_present(pieces) == pieces.len() <==> all_present(pieces),
    decreases pieces.len(),
{
    if pieces.len() > 0 {
        let front = pieces.drop_last();
        lemma_count_present(front);
        if count_present(pieces) == pieces.len() {
            assert forall|i: int| 0 <= i < pieces.len() implies pieces[i] by {
                if i < front.len() {
                    assert(front[i]);
                }
            }
        }
        if all_present(pieces) {
            assert forall|i: int| 0 <= i < front.len() implies front[i] by {
                assert(pieces[i]);
            }
        }
    }
}

/// Adding a piece that was missing raises the count by one; adding one that was there changes
/// nothing.
pub proof fn law_count_after_set(pieces: Seq<bool>, index: int)
    requires
        0 <= index < pieces.len(),
    ensures
        pieces[index] ==> pieces.update(index, true) == pieces,
        !pieces[index] ==> count_present(pieces.update(index, true)) == count_present(pieces) + 1,
    decreases pieces.len(),
{
    let after = pieces.update(index, true);
    if pieces[index] {
        assert(after =~= pieces);
    } else if index == pieces.len() - 1 {
        assert(after.drop_last() =~= pieces.drop_last());
    } else {
        assert(after.drop_last() =~= pieces.drop_last().update(index, true));
        law_count_after_set(pieces.drop_last(), index);
    }
}

} // verus!
