//! IP addresses as text: IPv4 in dotted decimal, IPv6 in colon-separated hexadecimal.

use vstd::prelude::*;
use vstd::slice::slice_subrange;
use vstd::utf8::encode_utf8;
use crate::bencode::COLON;
use crate::bigendian::{be_value, read_u128, read_u32};
use crate::span::{all_digits, digits_value, find_byte, is_digit, lemma_find_byte, position};

verus! {

/// Stands between the numbers of an IPv4 address: `.`.
pub const DOT: u8 = 0x2e;

/// An IP address, by its number in network order.
#[derive(Debug, Clone, Copy, PartialEq, Eq, Structural)]
pub enum Ip {
    V4(u32),
    V6(u128),
}

/// The parts of `text` between the separators.
pub open spec fn split(text: Seq<u8>, separator: u8) -> Seq<Seq<u8>>
    decreases text.len(),
{
    match find_byte(text, 0, separator) {
        Some(at) => if 0 <= at < text.len() {
            seq![text.take(at)] + split(text.skip(at + 1), separator)
        } else {
            seq![text]
        },
        None => seq![text],
    }
}

/// A number of an IPv4 address: one to three decimal digits for at most 255, without leading
/// zeros.
pub open spec fn octet(text: Seq<u8>) -> Option<u8> {
    if 1 <= text.len() <= 3 && all_digits(text) && (text.len() == 1 || text[0] != 0x30)
        && digits_value(text) <= 255 {
        Some(digits_value(text) as u8)
    } else {
        None
    }
}

/// The four bytes of an IPv4 address: four numbers with dots between them.
pub open spec fn ipv4_bytes(text: Seq<u8>) -> Option<Seq<u8>> {
    let parts = split(text, DOT);
    if parts.len() == 4 && forall|i: int| 0 <= i < 4 ==> octet(#[trigger] parts[i]) is Some {
        Some(Seq::new(4, |i: int| octet(parts[i])->0))
    } else {
        None
    }
}

/// Whether a byte is an ASCII hexadecimal digit, of either case.
pub open spec fn is_hex_digit(byte: u8) -> bool {
    is_digit(byte) || 0x41 <= byte <= 0x46 || 0x61 <= byte <= 0x66
}

/// What a hexadecimal digit stands for.
pub open spec fn hex_digit_value(byte: u8) -> nat {
    if is_digit(byte) {
        (byte - 0x30) as nat
    } else if byte <= 0x46 {
        (byte - 0x41 + 10) as nat
    } else {
        (byte - 0x61 + 10) as nat
    }
}

/// The number that hexadecimal digits denote.
pub open spec fn hex_value(digits: Seq<u8>) -> nat
    decreases digits.len(),
{
    if digits.len() == 0 {
        0
    } else {
        hex_value(digits.drop_last()) * 16 + hex_digit_value(digits.last())
    }
}

/// The two bytes of a group of an IPv6 address: one to four hexadecimal digits.
pub open spec fn group_bytes(text: Seq<u8>) -> Option<Seq<u8>> {
    if 1 <= text.len() <= 4 && forall|i: int|
        0 <= i < text.len() ==> is_hex_digit(#[trigger] text[i]) {
        Some(seq![(hex_value(text) / 256) as u8, (hex_value(text) % 256) as u8])
    } else {
        None
    }
}

/// The bytes of groups, one after another.
pub open spec fn all_group_bytes(groups: Seq<Seq<u8>>) -> Option<Seq<u8>>
    decreases groups.len(),
{
    if groups.len() == 0 {
        Some(Seq::empty())
    } else {
        match (all_group_bytes(groups.drop_last()), group_bytes(groups.last())) {
            (Some(front), Some(last)) => Some(front + last),
            _ => None,
        }
    }
}

/// The bytes of a run of groups with colons between them; where it ends the address, its last
/// part may be an IPv4 address in the place of two groups. An empty text is a run of none.
pub open spec fn run_bytes(text: Seq<u8>, ends_address: bool) -> Option<Seq<u8>> {
    let parts = split(text, COLON);
    if text.len() == 0 {
        Some(Seq::empty())
    } else if ends_address && ipv4_bytes(parts.last()) is Some {
        match all_group_bytes(parts.drop_last()) {
            Some(front) => Some(front + ipv4_bytes(parts.last())->0),
            None => None,
        }
    } else {
        all_group_bytes(parts)
    }
}

/// Where the first two colons in a row are, at or after `from`.
pub open spec fn find_gap(text: Seq<u8>, from: int) -> Option<int>
    decreases text.len() - from,
{
    if from < 0 || from + 1 >= text.len() {
        None
    } else if text[from] == COLON && text[from + 1] == COLON {
        Some(from)
    } else {
        find_gap(text, from + 1)
    }
}

/// The sixteen bytes of an IPv6 address: eight groups; or fewer, where two colons in a row stand
/// for one group of zeros or more.
pub open spec fn ipv6_bytes(text: Seq<u8>) -> Option<Seq<u8>> {
    match find_gap(text, 0) {
        None => match run_bytes(text, true) {
            Some(bytes) => if bytes.len() == 16 {
                Some(bytes)
            } else {
                None
            },
            None => None,
        },
        Some(at) => match (run_bytes(text.take(at), false), run_bytes(text.skip(at + 2), true)) {
            (Some(head), Some(tail)) => if head.len() + tail.len() <= 14 {
                Some(head + Seq::new((16 - head.len() - tail.len()) as nat, |i: int| 0u8) + tail)
            } else {
                None
            },
            _ => None,
        },
    }
}

/// The IP address that a text denotes, if it denotes one.
pub open spec fn ip_of(text: Seq<u8>) -> Option<Ip> {
    match ipv4_bytes(text) {
        Some(bytes) => Some(Ip::V4(be_value(bytes) as u32)),
        None => match ipv6_bytes(text) {
            Some(bytes) => Some(Ip::V6(be_value(bytes) as u128)),
            None => None,
        },
    }
}

/// Bytes, where there are any.
spec fn bytes_of(bytes: Option<Vec<u8>>) -> Option<Seq<u8>> {
    match bytes {
        Some(bytes) => Some(bytes@),
        None => None,
    }
}

spec fn parts_of(text: Seq<u8>, spans: Seq<(usize, usize)>) -> Seq<Seq<u8>> {
    Seq::new(spans.len(), |i: int| text.subrange(spans[i].0 as int, spans[i].1 as int))
}

spec fn spans_fit(text: Seq<u8>, spans: Seq<(usize, usize)>) -> bool {
    forall|i: int| 0 <= i < spans.len() ==> (#[trigger] spans[i]).0 <= spans[i].1 <= text.len()
}

/// Searching in the rest of a text finds what searching from there on finds.
proof fn lemma_find_in_rest(text: Seq<u8>, start: int, from: int, byte: u8)
    requires
        0 <= start <= from,
        start <= text.len(),
    ensures
        find_byte(text.skip(start), from - start, byte) == (match find_byte(text, from, byte) {
            Some(at) => Some(at - start),
            None => None,
        }),
    decreases text.len() - from,
{
    if from < text.len() {
        assert(text.skip(start)[from - start] == text[from]);
        lemma_find_in_rest(text, start, from + 1, byte);
    }
}

/// Where the parts of `text` lie.
fn split_spans(text: &[u8], separator: u8) -> (spans: Vec<(usize, usize)>)
    ensures
        spans_fit(text@, spans@),
        parts_of(text@, spans@) == split(text@, separator),
{
    let ghost all = split(text@, separator);
    let mut spans: Vec<(usize, usize)> = Vec::new();
    let mut start: usize = 0;
    assert(text@.skip(0) =~= text@);
    assert(parts_of(text@, spans@) + split(text@.skip(0), separator) =~= all);
    loop
        invariant
            start <= text@.len(),
            all == split(text@, separator),
            spans_fit(text@, spans@),
            parts_of(text@, spans@) + split(text@.skip(start as int), separator) == all,
        decreases text@.len() - start,
    {
        let ghost before = parts_of(text@, spans@);
        let ghost rest = text@.skip(start as int);
        proof {
            lemma_find_in_rest(text@, start as int, start as int, separator);
            lemma_find_byte(text@, start as int, separator);
        }
        match position(text, start, separator) {
            Some(at) => {
                assert(at < text.len());
                spans.push((start, at));
                proof {
                    let part = text@.subrange(start as int, at as int);
                    assert(rest.take(at - start) =~= part);
                    assert(rest.skip(at - start + 1) =~= text@.skip(at + 1));
                    assert(parts_of(text@, spans@) =~= before.push(part));
                    assert(before + (seq![part] + split(text@.skip(at + 1), separator))
                        =~= before.push(part) + split(text@.skip(at + 1), separator));
                }
                start = at + 1;
            },
            None => {
                spans.push((start, text.len()));
                proof {
                    let part = text@.subrange(start as int, text@.len() as int);
                    assert(rest =~= part);
                    assert(parts_of(text@, spans@) =~= before.push(part));
                    assert(before + seq![part] =~= before.push(part));
                }
                return spans;
            },
        }
    }
}

/// A number of an IPv4 address.
fn read_octet(text: &[u8]) -> (number: Option<u8>)
    ensures
        number == octet(text@),
{
    if text.len() < 1 || text.len() > 3 || (text.len() > 1 && text[0] == 0x30) {
        return None;
    }
    let mut value: u16 = 0;
    let mut i: usize = 0;
    assert(digits_value(text@.take(0)) == 0);
    while i < text.len()
        invariant
            i <= text@.len() <= 3,
            forall|k: int| 0 <= k < i ==> is_digit(#[trigger] text@[k]),
            value == digits_value(text@.take(i as int)),
            value < (if i == 0 {
                1int
            } else if i == 1 {
                10
            } else if i == 2 {
                100
            } else {
                1000
            }),
        decreases text@.len() - i,
    {
        let byte: u8 = text[i];
        if byte < 0x30 || byte > 0x39 {
            assert(!is_digit(text@[i as int]));
            return None;
        }
        assert(text@.take(i + 1).drop_last() =~= text@.take(i as int));
        value = value * 10 + (byte - 0x30) as u16;
        i += 1;
    }
    assert(text@.take(i as int) =~= text@);
    if value <= 255 {
        Some(value as u8)
    } else {
        None
    }
}

/// The bytes of an IPv4 address.
fn read_ipv4(text: &[u8]) -> (bytes: Option<Vec<u8>>)
    ensures
        bytes_of(bytes) == ipv4_bytes(text@),
{
    let spans: Vec<(usize, usize)> = split_spans(text, DOT);
    let ghost parts = split(text@, DOT);
    if spans.len() != 4 {
        assert(parts.len() == spans@.len());
        return None;
    }
    let mut bytes: Vec<u8> = Vec::new();
    let mut i: usize = 0;
    while i < 4
        invariant
            i <= 4,
            spans@.len() == 4,
            spans_fit(text@, spans@),
            parts == parts_of(text@, spans@),
            parts == split(text@, DOT),
            bytes@.len() == i,
            forall|k: int| 0 <= k < i ==> octet(#[trigger] parts[k]) == Some(bytes@[k]),
        decreases 4 - i,
    {
        match read_octet(slice_subrange(text, spans[i].0, spans[i].1)) {
            Some(number) => {
                assert(octet(parts[i as int]) == Some(number));
                bytes.push(number);
            },
            None => {
                assert(octet(parts[i as int]) is None);
                return None;
            },
        }
        i += 1;
    }
    assert(bytes@ =~= ipv4_bytes(text@)->0);
    Some(bytes)
}

/// Appends the bytes of a group of an IPv6 address; `false` where the text is none.
fn push_group(out: &mut Vec<u8>, text: &[u8]) -> (ok: bool)
    ensures
        match group_bytes(text@) {
            Some(bytes) => ok && final(out)@ == old(out)@ + bytes,
            None => !ok && *final(out) == *old(out),
        },
{
    if text.len() < 1 || text.len() > 4 {
        return false;
    }
    let mut value: u32 = 0;
    let mut i: usize = 0;
    assert(hex_value(text@.take(0)) == 0);
    while i < text.len()
        invariant
            *out == *old(out),
            i <= text@.len() <= 4,
            forall|k: int| 0 <= k < i ==> is_hex_digit(#[trigger] text@[k]),
            value == hex_value(text@.take(i as int)),
            value < (if i == 0 {
                1int
            } else if i == 1 {
                0x10
            } else if i == 2 {
                0x100
            } else if i == 3 {
                0x1000
            } else {
                0x1_0000
            }),
        decreases text@.len() - i,
    {
        let byte: u8 = text[i];
        let digit: u8 = if 0x30 <= byte && byte <= 0x39 {
            byte - 0x30
        } else if 0x41 <= byte && byte <= 0x46 {
            byte - 0x41 + 10
        } else if 0x61 <= byte && byte <= 0x66 {
            byte - 0x61 + 10
        } else {
            assert(!is_hex_digit(text@[i as int]));
            return false;
        };
        assert(text@.take(i + 1).drop_last() =~= text@.take(i as int));
        value = value * 16 + digit as u32;
        i += 1;
    }
    assert(text@.take(i as int) =~= text@);
    out.push((value / 256) as u8);
    out.push((value % 256) as u8);
    assert(out@ =~= old(out)@ + group_bytes(text@)->0);
    true
}

/// The bytes of the first `n` groups.
fn read_groups(text: &[u8], spans: &Vec<(usize, usize)>, n: usize) -> (bytes: Option<Vec<u8>>)
    requires
        n <= spans@.len(),
        spans_fit(text@, spans@),
    ensures
        bytes_of(bytes) == all_group_bytes(parts_of(text@, spans@).take(n as int)),
{
    let ghost parts = parts_of(text@, spans@);
    let mut bytes: Vec<u8> = Vec::new();
    let mut i: usize = 0;
    assert(parts.take(0) =~= Seq::<Seq<u8>>::empty());
    assert(bytes@ =~= Seq::<u8>::empty());
    while i < n
        invariant
            i <= n <= spans@.len(),
            spans_fit(text@, spans@),
            parts == parts_of(text@, spans@),
            all_group_bytes(parts.take(i as int)) == Some(bytes@),
        decreases n - i,
    {
        assert(parts.take(i + 1).drop_last() =~= parts.take(i as int));
        assert(parts.take(i + 1).last() == parts[i as int]);
        if !push_group(&mut bytes, slice_subrange(text, spans[i].0, spans[i].1)) {
            proof {
                lemma_groups_prefix(parts.take(n as int), i + 1);
                assert(parts.take(n as int).take(i + 1) =~= parts.take(i + 1));
            }
            return None;
        }
        i += 1;
    }
    Some(bytes)
}

/// Where the first groups are none, all of them are none.
proof fn lemma_groups_prefix(groups: Seq<Seq<u8>>, n: int)
    requires
        0 <= n <= groups.len(),
        all_group_bytes(groups.take(n)) is None,
    ensures
        all_group_bytes(groups) is None,
    decreases groups.len(),
{
    if n < groups.len() {
        assert(groups.drop_last().take(n) =~= groups.take(n));
        lemma_groups_prefix(groups.drop_last(), n);
    } else {
        assert(groups.take(n) =~= groups);
    }
}

/// The bytes of a run of groups.
fn read_run(text: &[u8], ends_address: bool) -> (bytes: Option<Vec<u8>>)
    ensures
        bytes_of(bytes) == run_bytes(text@, ends_address),
{
    if text.len() == 0 {
        let none: Vec<u8> = Vec::new();
        assert(none@ =~= Seq::<u8>::empty());
        return Some(none);
    }
    let spans: Vec<(usize, usize)> = split_spans(text, COLON);
    let ghost parts = split(text@, COLON);
    assert(parts.len() == spans@.len());
    proof {
        lemma_split_len(text@, COLON);
    }
    let last: usize = spans.len() - 1;
    if ends_address {
        match read_ipv4(slice_subrange(text, spans[last].0, spans[last].1)) {
            Some(mut tail) => {
                assert(parts.take(last as int) =~= parts.drop_last());
                return match read_groups(text, &spans, last) {
                    Some(mut bytes) => {
                        bytes.append(&mut tail);
                        Some(bytes)
                    },
                    None => None,
                };
            },
            None => {},
        }
    }
    assert(parts.take(spans@.len() as int) =~= parts);
    read_groups(text, &spans, spans.len())
}

/// A text has at least one part.
proof fn lemma_split_len(text: Seq<u8>, separator: u8)
    ensures
        split(text, separator).len() > 0,
{
}

/// Where the first two colons in a row are.
fn gap(text: &[u8]) -> (at: Option<usize>)
    ensures
        match at {
            Some(i) => find_gap(text@, 0) == Some(i as int) && i + 2 <= text@.len(),
            None => find_gap(text@, 0) is None,
        },
{
    if text.len() < 2 {
        return None;
    }
    let mut i: usize = 0;
    while i < text.len() - 1
        invariant
            2 <= text@.len(),
            i < text@.len(),
            find_gap(text@, i as int) == find_gap(text@, 0),
        decreases text@.len() - i,
    {
        if text[i] == COLON && text[i + 1] == COLON {
            return Some(i);
        }
        i += 1;
    }
    None
}

/// The bytes of an IPv6 address.
fn read_ipv6(text: &[u8]) -> (bytes: Option<Vec<u8>>)
    ensures
        bytes_of(bytes) == ipv6_bytes(text@),
{
    let at: usize = match gap(text) {
        None => {
            return match read_run(text, true) {
                Some(bytes) => if bytes.len() == 16 {
                    Some(bytes)
                } else {
                    None
                },
                None => None,
            };
        },
        Some(at) => at,
    };
    assert(text@.take(at as int) =~= text@.subrange(0, at as int));
    assert(text@.skip(at + 2) =~= text@.subrange(at + 2, text@.len() as int));
    let mut bytes: Vec<u8> = match read_run(slice_subrange(text, 0, at), false) {
        Some(head) => head,
        None => return None,
    };
    assert(at + 2 <= text.len());
    let mut tail: Vec<u8> = match read_run(slice_subrange(text, at + 2, text.len()), true) {
        Some(tail) => tail,
        None => return None,
    };
    if bytes.len() > 14 || tail.len() > 14 - bytes.len() {
        return None;
    }
    let ghost head = bytes@;
    let ghost end = tail@;
    let zeros: usize = 16 - bytes.len() - tail.len();
    let mut i: usize = 0;
    while i < zeros
        invariant
            i <= zeros,
            bytes@ == head + Seq::new(i as nat, |k: int| 0u8),
        decreases zeros - i,
    {
        bytes.push(0);
        i += 1;
        assert(bytes@ =~= head + Seq::new(i as nat, |k: int| 0u8));
    }
    bytes.append(&mut tail);
    assert(bytes@ =~= ipv6_bytes(text@)->0);
    Some(bytes)
}

/// The IP address that a text denotes: an IPv4 address in dotted decimal or an IPv6 address.
/// Anything else, such as a host name, denotes none.
pub fn parse_ip(text: &str) -> (ip: Option<Ip>)
    ensures
        ip == ip_of(encode_utf8(text@)),
{
    let bytes: &[u8] = text.as_bytes();
    match read_ipv4(bytes) {
        Some(four) => {
            assert(four@.subrange(0, 4) =~= four@);
            return Some(Ip::V4(read_u32(four.as_slice(), 0)));
        },
        None => {},
    }
    match read_ipv6(bytes) {
        Some(sixteen) => {
            assert(sixteen@.subrange(0, 16) =~= sixteen@);
            Some(Ip::V6(read_u128(sixteen.as_slice(), 0)))
        },
        None => None,
    }
}

} // verus!
