//! Big-endian (network order) integers as byte sequences.

use vstd::prelude::*;

verus! {

/// The number that `bytes` denotes, most significant byte first.
pub open spec fn be_value(bytes: Seq<u8>) -> nat
    decreases bytes.len(),
{
    if bytes.len() == 0 {
        0
    } else {
        be_value(bytes.drop_last()) * 256 + bytes.last() as nat
    }
}

/// The lowest `width` bytes of `value`, most significant byte first.
pub open spec fn be_bytes(value: nat, width: nat) -> Seq<u8>
    decreases width,
{
    if width == 0 {
        Seq::empty()
    } else {
        be_bytes(value / 256, (width - 1) as nat).push((value % 256) as u8)
    }
}

/// One more than the largest number that fits in `width` bytes.
pub open spec fn be_limit(width: nat) -> nat
    decreases width,
{
    if width == 0 {
        1
    } else {
        be_limit((width - 1) as nat) * 256
    }
}

/// The widths in use and their limits.
pub proof fn lemma_be_limits()
    ensures
        be_limit(1) == 0x100,
        be_limit(2) == 0x1_0000,
        be_limit(4) == 0x1_0000_0000,
        be_limit(8) == 0x1_0000_0000_0000_0000,
        be_limit(16) == 0x1_0000_0000_0000_0000_0000_0000_0000_0000int,
{
    reveal_with_fuel(be_limit, 17);
}

/// `be_bytes` gives as many bytes as it is asked for.
pub proof fn lemma_be_bytes_len(value: nat, width: nat)
    ensures
        be_bytes(value, width).len() == width,
    decreases width,
{
    if width > 0 {
        lemma_be_bytes_len(value / 256, (width - 1) as nat);
    }
}

/// A byte sequence denotes a number below the limit of its width.
pub proof fn lemma_be_value_bound(bytes: Seq<u8>)
    ensures
        be_value(bytes) < be_limit(bytes.len()),
    decreases bytes.len(),
{
    if bytes.len() > 0 {
        lemma_be_value_bound(bytes.drop_last());
    }
}

/// Reading back a written number gives the number, where it fits the width.
pub proof fn lemma_be_value_of_bytes(value: nat, width: nat)
    requires
        value < be_limit(width),
    ensures
        be_bytes(value, width).len() == width,
        be_value(be_bytes(value, width)) == value,
    decreases width,
{
    lemma_be_bytes_len(value, width);
    if width > 0 {
        lemma_be_value_of_bytes(value / 256, (width - 1) as nat);
        assert(be_bytes(value, width).drop_last() =~= be_bytes(value / 256, (width - 1) as nat));
    }
}

/// Writing a number that was read gives the bytes that it was read from.
pub proof fn lemma_be_bytes_of_value(bytes: Seq<u8>)
    ensures
        be_bytes(be_value(bytes), bytes.len()) == bytes,
    decreases bytes.len(),
{
    if bytes.len() > 0 {
        lemma_be_bytes_of_value(bytes.drop_last());
        let value = be_value(bytes);
        assert(value / 256 == be_value(bytes.drop_last()));
        assert(value % 256 == bytes.last() as nat);
        assert(bytes.drop_last().push(bytes.last()) =~= bytes);
        assert(be_bytes(value, bytes.len()) =~= bytes);
    } else {
        assert(be_bytes(be_value(bytes), 0) =~= bytes);
    }
}

/// The two-byte number, written out.
pub proof fn lemma_be_value_2(bytes: Seq<u8>)
    requires
        bytes.len() == 2,
    ensures
        be_value(bytes) == bytes[0] * 0x100 + bytes[1],
{
    reveal_with_fuel(be_value, 3);
}

/// The four-byte number, written out.
pub proof fn lemma_be_value_4(bytes: Seq<u8>)
    requires
        bytes.len() == 4,
    ensures
        be_value(bytes) == bytes[0] * 0x100_0000 + bytes[1] * 0x1_0000 + bytes[2] * 0x100
            + bytes[3],
{
    reveal_with_fuel(be_value, 5);
}

/// The two bytes of a 16-bit number, written out.
pub proof fn lemma_be_bytes_2(value: u16)
    ensures
        be_bytes(value as nat, 2) == seq![(value / 0x100) as u8, (value % 0x100) as u8],
{
    reveal_with_fuel(be_bytes, 3);
    assert(be_bytes(value as nat, 2) =~= seq![
        (value / 0x100) as u8,
        (value % 0x100) as u8,
    ]);
}

/// The four bytes of a 32-bit number, written out.
pub proof fn lemma_be_bytes_4(value: u32)
    ensures
        be_bytes(value as nat, 4) == seq![
            (value / 0x100_0000) as u8,
            (value / 0x1_0000 % 0x100) as u8,
            (value / 0x100 % 0x100) as u8,
            (value % 0x100) as u8,
        ],
{
    reveal_with_fuel(be_bytes, 5);
    assert(be_bytes(value as nat, 4) =~= seq![
        (value / 0x100_0000) as u8,
        (value / 0x1_0000 % 0x100) as u8,
        (value / 0x100 % 0x100) as u8,
        (value % 0x100) as u8,
    ]);
}

/// Eight bytes are the four high ones and the four low ones.
pub proof fn lemma_be_bytes_8(value: nat)
    ensures
        be_bytes(value, 8) == be_bytes(value / 0x1_0000_0000, 4) + be_bytes(
            value % 0x1_0000_0000,
            4,
        ),
{
    reveal_with_fuel(be_bytes, 5);
    let v1 = value / 256;
    let v2 = v1 / 256;
    let v3 = v2 / 256;
    let v4 = v3 / 256;
    assert(v4 == value / 0x1_0000_0000);
    let low = value % 0x1_0000_0000;
    let w1 = low / 256;
    let w2 = w1 / 256;
    let w3 = w2 / 256;
    assert(w3 / 256 == 0);
    assert(low % 256 == value % 256);
    assert(w1 % 256 == v1 % 256);
    assert(w2 % 256 == v2 % 256);
    assert(w3 % 256 == v3 % 256);
    assert(be_bytes(value, 8) == be_bytes(v4, 4).push((v3 % 256) as u8).push(
        (v2 % 256) as u8,
    ).push((v1 % 256) as u8).push((value % 256) as u8));
    assert(be_bytes(low, 4) =~= seq![
        (v3 % 256) as u8,
        (v2 % 256) as u8,
        (v1 % 256) as u8,
        (value % 256) as u8,
    ]);
    assert(be_bytes(value, 8) =~= be_bytes(v4, 4) + be_bytes(low, 4));
}

/// Reads the 16-bit number at `at`.
pub fn read_u16(bytes: &[u8], at: usize) -> (value: u16)
    requires
        at + 2 <= bytes@.len(),
    ensures
        value == be_value(bytes@.subrange(at as int, at + 2)),
{
    proof {
        lemma_be_value_2(bytes@.subrange(at as int, at + 2));
    }
    bytes[at] as u16 * 0x100 + bytes[at + 1] as u16
}

/// Reads the 32-bit number at `at`.
pub fn read_u32(bytes: &[u8], at: usize) -> (value: u32)
    requires
        at + 4 <= bytes@.len(),
    ensures
        value == be_value(bytes@.subrange(at as int, at + 4)),
{
    proof {
        lemma_be_value_4(bytes@.subrange(at as int, at + 4));
    }
    bytes[at] as u32 * 0x100_0000 + bytes[at + 1] as u32 * 0x1_0000 + bytes[at + 2] as u32 * 0x100
        + bytes[at + 3] as u32
}

/// Reads the 64-bit number at `at`.
pub fn read_u64(bytes: &[u8], at: usize) -> (value: u64)
    requires
        at + 8 <= bytes@.len(),
    ensures
        value == be_value(bytes@.subrange(at as int, at + 8)),
{
    assert(at + 8 <= bytes.len());
    let high: u32 = read_u32(bytes, at);
    let low: u32 = read_u32(bytes, at + 4);
    proof {
        let whole = bytes@.subrange(at as int, at + 8);
        reveal_with_fuel(be_value, 5);
        assert(whole.drop_last().drop_last().drop_last().drop_last() =~= bytes@.subrange(
            at as int,
            at + 4,
        ));
        lemma_be_value_4(bytes@.subrange(at + 4, at + 8));
        assert(be_value(whole) == be_value(bytes@.subrange(at as int, at + 4)) * 0x1_0000_0000
            + be_value(bytes@.subrange(at + 4, at + 8)));
    }
    high as u64 * 0x1_0000_0000 + low as u64
}

/// A number is its high bytes and its low bytes put together.
pub proof fn lemma_be_value_split(high: Seq<u8>, low: Seq<u8>)
    ensures
        be_value(high + low) == be_value(high) * be_limit(low.len()) + be_value(low),
    decreases low.len(),
{
    if low.len() == 0 {
        assert(high + low =~= high);
        assert(be_limit(0) == 1);
    } else {
        let front = low.drop_last();
        lemma_be_value_split(high, front);
        assert((high + low).drop_last() =~= high + front);
        let h = be_value(high);
        let l = be_limit(front.len());
        let f = be_value(front);
        assert(be_limit(low.len()) == l * 256);
        assert((h * l + f) * 256 == h * (l * 256) + f * 256) by (nonlinear_arith);
    }
}

/// Reads the 128-bit number at `at`.
pub fn read_u128(bytes: &[u8], at: usize) -> (value: u128)
    requires
        at + 16 <= bytes@.len(),
    ensures
        value == be_value(bytes@.subrange(at as int, at + 16)),
{
    assert(at + 16 <= bytes.len());
    let high: u64 = read_u64(bytes, at);
    let low: u64 = read_u64(bytes, at + 8);
    proof {
        let a = bytes@.subrange(at as int, at + 8);
        let b = bytes@.subrange(at + 8, at + 16);
        lemma_be_limits();
        lemma_be_value_split(a, b);
        assert(bytes@.subrange(at as int, at + 16) =~= a + b);
        assert(high as int * 0x1_0000_0000_0000_0000 + low as int
            <= 0xffff_ffff_ffff_ffff_ffff_ffff_ffff_ffff);
    }
    high as u128 * 0x1_0000_0000_0000_0000 + low as u128
}

/// Appends `value` in two bytes.
pub fn push_u16(out: &mut Vec<u8>, value: u16)
    ensures
        final(out)@ == old(out)@ + be_bytes(value as nat, 2),
{
    proof {
        lemma_be_bytes_2(value);
    }
    out.push((value / 0x100) as u8);
    out.push((value % 0x100) as u8);
    assert(out@ =~= old(out)@ + be_bytes(value as nat, 2));
}

/// Appends `value` in four bytes.
pub fn push_u32(out: &mut Vec<u8>, value: u32)
    ensures
        final(out)@ == old(out)@ + be_bytes(value as nat, 4),
{
    proof {
        lemma_be_bytes_4(value);
    }
    out.push((value / 0x100_0000) as u8);
    out.push((value / 0x1_0000 % 0x100) as u8);
    out.push((value / 0x100 % 0x100) as u8);
    out.push((value % 0x100) as u8);
    assert(out@ =~= old(out)@ + be_bytes(value as nat, 4));
}

/// Appends `value` in eight bytes.
pub fn push_u64(out: &mut Vec<u8>, value: u64)
    ensures
        final(out)@ == old(out)@ + be_bytes(value as nat, 8),
{
    let high: u32 = (value / 0x1_0000_0000) as u32;
    let low: u32 = (value % 0x1_0000_0000) as u32;
    push_u32(out, high);
    push_u32(out, low);
    proof {
        lemma_be_bytes_8(value as nat);
        assert(out@ =~= old(out)@ + be_bytes(value as nat, 8));
    }
}

} // verus!
