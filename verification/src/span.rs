//! The byte spans of bencoded values: a minimal walk that never copies or re-encodes.

use vstd::prelude::*;
use vstd::slice::slice_subrange;
use crate::bencode::{encoded_bytes, COLON, DICT, END, INT, LIST};
use crate::error::{Error, Fault, Result};
use crate::text::{
    decimal, decimal_bytes, hex_byte, push_decimal, push_hex_byte,
};

verus! {

/// Where the first `byte` at or after `from` is.
pub open spec fn find_byte(buf: Seq<u8>, from: int, byte: u8) -> Option<int>
    decreases buf.len() - from,
{
    if from < 0 || from >= buf.len() {
        None
    } else if buf[from] == byte {
        Some(from)
    } else {
        find_byte(buf, from + 1, byte)
    }
}

/// Whether a byte is an ASCII decimal digit.
pub open spec fn is_digit(byte: u8) -> bool {
    0x30 <= byte <= 0x39
}

/// Whether all bytes are ASCII decimal digits.
pub open spec fn all_digits(bytes: Seq<u8>) -> bool {
    forall|i: int| 0 <= i < bytes.len() ==> is_digit(#[trigger] bytes[i])
}

/// The number that ASCII decimal digits denote.
pub open spec fn digits_value(digits: Seq<u8>) -> nat
    decreases digits.len(),
{
    if digits.len() == 0 {
        0
    } else {
        digits_value(digits.drop_last()) * 10 + (digits.last() - 0x30) as nat
    }
}

/// A length as text: digits, with or without a plus sign before them, for a number that fits in
/// `usize`.
pub open spec fn parse_length(text: Seq<u8>) -> Option<nat> {
    let digits = if text.len() > 0 && text[0] == 0x2b {
        text.skip(1)
    } else {
        text
    };
    if digits.len() > 0 && all_digits(digits) && digits_value(digits) <= usize::MAX {
        Some(digits_value(digits))
    } else {
        None
    }
}

/// Where the bytes of the byte string at `at` begin and end, or what is wrong with it.
pub open spec fn byte_string_at(buf: Seq<u8>, at: int) -> std::result::Result<
    (int, int),
    Seq<char>,
> {
    match find_byte(buf, at, COLON) {
        None => Err("byte string missing ':' delimiter"@),
        Some(colon) => match parse_length(buf.subrange(at, colon)) {
            None => Err("invalid byte-string length"@),
            Some(len) => if colon + 1 + len <= buf.len() {
                Ok((colon + 1, colon + 1 + len))
            } else {
                Err("byte string runs past end of buffer"@)
            },
        },
    }
}

/// The complaint about a byte that starts no value.
pub open spec fn stray_byte_text(byte: u8, at: nat) -> Seq<char> {
    "unexpected bencode byte 0x"@ + hex_byte(byte) + " at offset "@ + decimal(at)
}

/// Where the value at `at` ends, or what is wrong with it.
pub open spec fn value_end(buf: Seq<u8>, at: int) -> std::result::Result<int, Seq<char>>
    decreases buf.len() - at, 0int,
{
    if at < 0 || at >= buf.len() {
        Err("unexpected end of buffer"@)
    } else if buf[at] == INT {
        match find_byte(buf, at, END) {
            None => Err("unterminated integer"@),
            Some(end) => Ok(end + 1),
        }
    } else if buf[at] == LIST || buf[at] == DICT {
        items_end(buf, at + 1)
    } else if is_digit(buf[at]) {
        match byte_string_at(buf, at) {
            Err(text) => Err(text),
            Ok((_, end)) => Ok(end),
        }
    } else {
        Err(stray_byte_text(buf[at], at as nat))
    }
}

/// Where a list or dictionary ends whose next item is at `at`.
pub open spec fn items_end(buf: Seq<u8>, at: int) -> std::result::Result<int, Seq<char>>
    decreases buf.len() - at, 1int,
{
    if at < 0 || at >= buf.len() {
        Err("unterminated container"@)
    } else if buf[at] == END {
        Ok(at + 1)
    } else {
        match value_end(buf, at) {
            Err(text) => Err(text),
            // A value is never empty and ends in the buffer, so the walk always advances.
            Ok(next) => if at < next <= buf.len() {
                items_end(buf, next)
            } else {
                Err("unterminated container"@)
            },
        }
    }
}

/// Where the value of the first `info` key lies in a dictionary whose next key is at `at`, or
/// why there is none.
pub open spec fn find_info(buf: Seq<u8>, at: int) -> std::result::Result<(int, int), Seq<char>>
    decreases buf.len() - at,
{
    if at < 0 || at >= buf.len() {
        Err("unterminated top-level dictionary"@)
    } else if buf[at] == END {
        Err("metainfo has no `info` dictionary"@)
    } else {
        match byte_string_at(buf, at) {
            Err(text) => Err(text),
            Ok((start, end)) => match value_end(buf, end) {
                Err(text) => Err(text),
                Ok(next) => if buf.subrange(start, end) == info_key() {
                    Ok((end, next))
                } else if at < next <= buf.len() {
                    find_info(buf, next)
                } else {
                    Err("unterminated top-level dictionary"@)
                },
            },
        }
    }
}

/// The key `info`.
pub open spec fn info_key() -> Seq<u8> {
    seq![0x69u8, 0x6e, 0x66, 0x6f]
}

/// Where the top-level `info` value lies, or why there is none.
pub open spec fn info_span(buf: Seq<u8>) -> std::result::Result<(int, int), Seq<char>> {
    if buf.len() == 0 || buf[0] != DICT {
        Err("metainfo is not a bencode dictionary"@)
    } else {
        find_info(buf, 1)
    }
}

/// A `MalformedTorrent` error.
fn malformed<T>(text: &str) -> (result: Result<T>)
    ensures
        result matches Err(error) && error@ == Fault::MalformedTorrent(text@),
{
    Err(Error::MalformedTorrent(text.to_owned()))
}

/// Where the first `byte` at or after `from` is.
pub fn position(buf: &[u8], from: usize, byte: u8) -> (at: Option<usize>)
    requires
        from <= buf@.len(),
    ensures
        match at {
            Some(i) => find_byte(buf@, from as int, byte) == Some(i as int),
            None => find_byte(buf@, from as int, byte) is None,
        },
{
    let mut i: usize = from;
    while i < buf.len()
        invariant
            from <= i <= buf@.len(),
            find_byte(buf@, i as int, byte) == find_byte(buf@, from as int, byte),
        decreases buf@.len() - i,
    {
        if buf[i] == byte {
            return Some(i);
        }
        i += 1;
    }
    None
}

/// Reads the length text between `from` and `to`.
fn read_length(buf: &[u8], from: usize, to: usize) -> (len: Option<usize>)
    requires
        from <= to <= buf@.len(),
    ensures
        match len {
            Some(n) => parse_length(buf@.subrange(from as int, to as int)) == Some(n as nat),
            None => parse_length(buf@.subrange(from as int, to as int)) is None,
        },
{
    let ghost text = buf@.subrange(from as int, to as int);
    let start: usize = if from < to && buf[from] == 0x2b {
        from + 1
    } else {
        from
    };
    let ghost digits = buf@.subrange(start as int, to as int);
    assert(digits =~= (if text.len() > 0 && text[0] == 0x2b {
        text.skip(1)
    } else {
        text
    }));
    if start == to {
        return None;
    }
    let mut value: usize = 0;
    let mut i: usize = start;
    while i < to
        invariant
            start <= i <= to,
            to <= buf@.len(),
            digits == buf@.subrange(start as int, to as int),
            forall|k: int| 0 <= k < i - start ==> is_digit(#[trigger] digits[k]),
            value == digits_value(digits.take(i - start)),
            text == buf@.subrange(from as int, to as int),
            parse_length(text) == (if digits.len() > 0 && all_digits(digits) && digits_value(
                digits,
            ) <= usize::MAX {
                Some(digits_value(digits))
            } else {
                None
            }),
        decreases to - i,
    {
        let byte: u8 = buf[i];
        assert(byte == digits[i - start]);
        if byte < 0x30 || byte > 0x39 {
            assert(!is_digit(digits[i - start]));
            return None;
        }
        let digit: usize = (byte - 0x30) as usize;
        proof {
            assert(digits.take(i + 1 - start).drop_last() =~= digits.take(i - start));
            lemma_digits_prefix(digits, i + 1 - start);
        }
        match value.checked_mul(10) {
            None => {
                return None;
            },
            Some(tenfold) => match tenfold.checked_add(digit) {
                None => {
                    return None;
                },
                Some(next) => {
                    value = next;
                },
            },
        }
        i += 1;
    }
    assert(digits.take(to - start) =~= digits);
    Some(value)
}

/// The number of a prefix of the digits is at most that of all of them.
proof fn lemma_digits_prefix(digits: Seq<u8>, n: int)
    requires
        0 <= n <= digits.len(),
    ensures
        digits_value(digits.take(n)) <= digits_value(digits),
    decreases digits.len(),
{
    if n == digits.len() {
        assert(digits.take(n) =~= digits);
    } else {
        lemma_digits_prefix(digits.drop_last(), n);
        assert(digits.drop_last().take(n) =~= digits.take(n));
    }
}

/// Parse a bencode byte string `<len>:<bytes>` at `i`; return where the bytes begin and the
/// index just past them.
pub fn read_byte_string(buf: &[u8], i: usize) -> (result: Result<(usize, usize)>)
    requires
        i <= buf@.len(),
    ensures
        match byte_string_at(buf@, i as int) {
            Ok((start, end)) => {
                &&& result matches Ok((s, e))
                &&& s == start
                &&& e == end
                &&& i < s <= e <= buf@.len()
            },
            Err(text) => result matches Err(error) && error@ == Fault::MalformedTorrent(text),
        },
{
    let colon: usize = match position(buf, i, COLON) {
        Some(colon) => colon,
        None => return malformed("byte string missing ':' delimiter"),
    };
    proof {
        lemma_find_byte(buf@, i as int, COLON);
        assert(colon < buf.len());
    }
    let len: usize = match read_length(buf, i, colon) {
        Some(len) => len,
        None => return malformed("invalid byte-string length"),
    };
    let start: usize = colon + 1;
    if len > buf.len() - start {
        return malformed("byte string runs past end of buffer");
    }
    Ok((start, start + len))
}

/// What is found lies in the buffer, at or after where the search began.
pub proof fn lemma_find_byte(buf: Seq<u8>, from: int, byte: u8)
    requires
        0 <= from,
    ensures
        find_byte(buf, from, byte) matches Some(at) ==> from <= at < buf.len() && buf[at] == byte,
    decreases buf.len() - from,
{
    if from < buf.len() && buf[from] != byte {
        lemma_find_byte(buf, from + 1, byte);
    }
}

/// Return the index just past the bencode value beginning at `i`.
pub fn skip_value(buf: &[u8], i: usize) -> (result: Result<usize>)
    ensures
        match value_end(buf@, i as int) {
            Ok(end) => result matches Ok(e) && e == end && i < e <= buf@.len(),
            Err(text) => result matches Err(error) && error@ == Fault::MalformedTorrent(text),
        },
    decreases buf@.len() - i, 0int,
{
    if i >= buf.len() {
        return malformed("unexpected end of buffer");
    }
    let kind: u8 = buf[i];
    if kind == INT {
        match position(buf, i, END) {
            Some(end) => {
                proof {
                    lemma_find_byte(buf@, i as int, END);
                }
                Ok(end + 1)
            },
            None => malformed("unterminated integer"),
        }
    } else if kind == LIST || kind == DICT {
        let mut j: usize = i + 1;
        loop
            invariant
                i < j <= buf@.len(),
                items_end(buf@, i + 1) == items_end(buf@, j as int),
                value_end(buf@, i as int) == items_end(buf@, i + 1),
            decreases buf@.len() - j,
        {
            if j >= buf.len() {
                return malformed("unterminated container");
            }
            if buf[j] == END {
                return Ok(j + 1);
            }
            match skip_value(buf, j) {
                Err(error) => return Err(error),
                Ok(next) => {
                    j = next;
                },
            }
        }
    } else if 0x30 <= kind && kind <= 0x39 {
        match read_byte_string(buf, i) {
            Err(error) => Err(error),
            Ok((_, end)) => Ok(end),
        }
    } else {
        let mut text = "unexpected bencode byte 0x".to_owned();
        push_hex_byte(&mut text, kind);
        text.append(" at offset ");
        push_decimal(&mut text, i as u64);
        Err(Error::MalformedTorrent(text))
    }
}

/// Return the raw bytes of the top-level `info` value.
pub fn extract_raw_info(buf: &[u8]) -> (result: Result<&[u8]>)
    ensures
        match info_span(buf@) {
            Ok((start, end)) => {
                &&& 0 <= start <= end <= buf@.len()
                &&& result matches Ok(info)
                &&& info@ == buf@.subrange(start, end)
            },
            Err(text) => result matches Err(error) && error@ == Fault::MalformedTorrent(text),
        },
{
    if buf.len() == 0 || buf[0] != DICT {
        return malformed("metainfo is not a bencode dictionary");
    }
    let mut i: usize = 1;
    loop
        invariant
            0 < i <= buf@.len(),
            info_span(buf@) == find_info(buf@, i as int),
        decreases buf@.len() - i,
    {
        if i >= buf.len() {
            return malformed("unterminated top-level dictionary");
        }
        if buf[i] == END {
            return malformed("metainfo has no `info` dictionary");
        }
        let (start, end): (usize, usize) = match read_byte_string(buf, i) {
            Err(error) => return Err(error),
            Ok(span) => span,
        };
        let next: usize = match skip_value(buf, end) {
            Err(error) => return Err(error),
            Ok(next) => next,
        };
        let is_info: bool = end - start == 4 && buf[start] == 0x69 && buf[start + 1] == 0x6e
            && buf[start + 2] == 0x66 && buf[start + 3] == 0x6f;
        proof {
            let key = buf@.subrange(start as int, end as int);
            if is_info {
                assert(key =~= info_key());
            } else if key == info_key() {
                assert(key.len() == 4);
                assert(key[0] == buf@[start as int] && key[1] == buf@[start + 1]);
                assert(key[2] == buf@[start + 2] && key[3] == buf@[start + 3]);
                assert(false);
            }
        }
        if is_info {
            return Ok(slice_subrange(buf, end, next));
        }
        i = next;
    }
}

/// A bencoded value as it is written: the keys of a dictionary in any order, and whatever they
/// are.
pub enum Node {
    /// A number, negative or not, by its sign and size.
    Int(bool, nat),
    Str(Seq<u8>),
    List(Seq<Node>),
    Dict(Seq<(Seq<u8>, Node)>),
}

/// The bytes of a value.
pub open spec fn node_bytes(node: Node) -> Seq<u8>
    decreases node,
{
    match node {
        Node::Int(negative, n) => seq![INT] + (if negative {
            seq![0x2du8]
        } else {
            Seq::empty()
        }) + decimal_bytes(n) + seq![END],
        Node::Str(bytes) => encoded_bytes(bytes),
        Node::List(items) => seq![LIST] + list_bytes(items) + seq![END],
        Node::Dict(entries) => seq![DICT] + dict_bytes(entries) + seq![END],
    }
}

/// The bytes of the items of a list.
pub open spec fn list_bytes(items: Seq<Node>) -> Seq<u8>
    decreases items,
{
    if items.len() == 0 {
        Seq::empty()
    } else {
        node_bytes(items[0]) + list_bytes(items.subrange(1, items.len() as int))
    }
}

/// The bytes of the entries of a dictionary.
pub open spec fn dict_bytes(entries: Seq<(Seq<u8>, Node)>) -> Seq<u8>
    decreases entries,
{
    if entries.len() == 0 {
        Seq::empty()
    } else {
        encoded_bytes(entries[0].0) + node_bytes(entries[0].1) + dict_bytes(
            entries.subrange(1, entries.len() as int),
        )
    }
}

/// The decimal digits of a number are digits, and they denote it.
proof fn lemma_decimal_bytes(n: nat)
    ensures
        decimal_bytes(n).len() > 0,
        all_digits(decimal_bytes(n)),
        digits_value(decimal_bytes(n)) == n,
    decreases n,
{
    if n >= 10 {
        let front = decimal_bytes(n / 10);
        lemma_decimal_bytes(n / 10);
        assert(decimal_bytes(n).drop_last() =~= front);
        assert(decimal_bytes(n).last() == 48 + n % 10);
        assert forall|i: int| 0 <= i < decimal_bytes(n).len() implies is_digit(
            #[trigger] decimal_bytes(n)[i],
        ) by {
            if i < front.len() {
                assert(is_digit(front[i]));
            }
        }
    } else {
        assert(decimal_bytes(n).drop_last() =~= Seq::<u8>::empty());
        assert(decimal_bytes(n).last() == 48 + n);
        assert(digits_value(decimal_bytes(n).drop_last()) == 0);
    }
}

/// The first `byte` is found where no byte before it is one.
proof fn lemma_find_first(buf: Seq<u8>, from: int, at: int, byte: u8)
    requires
        0 <= from <= at < buf.len(),
        buf[at] == byte,
        forall|k: int| from <= k < at ==> buf[k] != byte,
    ensures
        find_byte(buf, from, byte) == Some(at),
    decreases at - from,
{
    if from < at {
        lemma_find_first(buf, from + 1, at, byte);
    }
}

/// A byte string is found where it was written.
pub proof fn lemma_string_span(before: Seq<u8>, bytes: Seq<u8>, after: Seq<u8>)
    requires
        bytes.len() <= usize::MAX,
    ensures
        ({
            let buf = before + encoded_bytes(bytes) + after;
            let at = before.len() as int;
            let end = at + encoded_bytes(bytes).len();
            &&& byte_string_at(buf, at) == Ok::<(int, int), Seq<char>>((end - bytes.len(), end))
            &&& buf.subrange(end - bytes.len(), end) == bytes
            &&& encoded_bytes(bytes).len() > 0
            &&& is_digit(buf[at])
            &&& value_end(buf, at) == Ok::<int, Seq<char>>(end)
        }),
{
    let buf = before + encoded_bytes(bytes) + after;
    let at = before.len() as int;
    let digits = decimal_bytes(bytes.len());
    let colon = at + digits.len();
    let end = at + encoded_bytes(bytes).len();
    lemma_decimal_bytes(bytes.len());
    assert forall|k: int| at <= k < colon implies buf[k] == digits[k - at] by {}
    assert(buf[colon] == COLON);
    assert forall|k: int| at <= k < colon implies buf[k] != COLON by {
        assert(is_digit(digits[k - at]));
    }
    lemma_find_first(buf, at, colon, COLON);
    assert(buf.subrange(at, colon) =~= digits);
    assert(is_digit(digits[0]));
    assert(buf[at] == digits[0]);
    assert(parse_length(digits) == Some(bytes.len()));
    assert(buf.subrange(end - bytes.len(), end) =~= bytes);
}

/// A value's span ends where it was written to end, whatever stands before and after it.
pub proof fn lemma_value_span(before: Seq<u8>, node: Node, after: Seq<u8>)
    requires
        before.len() + node_bytes(node).len() + after.len() <= usize::MAX,
    ensures
        node_bytes(node).len() > 0,
        (before + node_bytes(node) + after)[before.len() as int] != END,
        value_end(before + node_bytes(node) + after, before.len() as int) == Ok::<int, Seq<char>>(
            (before.len() + node_bytes(node).len()) as int,
        ),
    decreases node, 1int,
{
    let buf = before + node_bytes(node) + after;
    let at = before.len() as int;
    match node {
        Node::Int(negative, n) => {
            let digits = decimal_bytes(n);
            lemma_decimal_bytes(n);
            let sign: int = if negative {
                1
            } else {
                0
            };
            let end = at + 1 + sign + digits.len();
            assert(buf[at] == INT);
            assert(buf[end] == END);
            assert forall|k: int| at <= k < end implies buf[k] != END by {
                if k > at + sign {
                    assert(buf[k] == digits[k - at - 1 - sign]);
                    assert(is_digit(digits[k - at - 1 - sign]));
                }
            }
            lemma_find_first(buf, at, end, END);
        },
        Node::Str(bytes) => {
            lemma_string_span(before, bytes, after);
        },
        Node::List(items) => {
            let inner = before.push(LIST);
            let rest = seq![END] + after;
            assert(buf =~= inner + list_bytes(items) + rest);
            assert(buf[at] == LIST);
            lemma_list_span(inner, items, after);
        },
        Node::Dict(entries) => {
            let inner = before.push(DICT);
            let rest = seq![END] + after;
            assert(buf =~= inner + dict_bytes(entries) + rest);
            assert(buf[at] == DICT);
            lemma_dict_span(inner, entries, after);
        },
    }
}

proof fn lemma_list_span(before: Seq<u8>, items: Seq<Node>, after: Seq<u8>)
    requires
        before.len() + list_bytes(items).len() + 1 + after.len() <= usize::MAX,
    ensures
        items_end(before + list_bytes(items) + (seq![END] + after), before.len() as int) == Ok::<
            int,
            Seq<char>,
        >((before.len() + list_bytes(items).len() + 1) as int),
    decreases items, 0int,
{
    let buf = before + list_bytes(items) + (seq![END] + after);
    if items.len() == 0 {
        assert(buf[before.len() as int] == END);
    } else {
        let tail = items.subrange(1, items.len() as int);
        let first = node_bytes(items[0]);
        let rest = list_bytes(tail) + (seq![END] + after);
        assert(buf =~= before + first + rest);
        lemma_value_span(before, items[0], rest);
        assert(buf =~= (before + first) + list_bytes(tail) + (seq![END] + after));
        lemma_list_span(before + first, tail, after);
    }
}

/// A dictionary's bytes, grouped around its first key, around that key's value and after both.
pub proof fn lemma_entry_groups(
    before: Seq<u8>,
    key: Seq<u8>,
    value: Seq<u8>,
    tail: Seq<u8>,
    after: Seq<u8>,
)
    ensures
        before + (key + value + tail) + after == before + key + (value + (tail + after)),
        before + (key + value + tail) + after == (before + key) + value + (tail + after),
        before + (key + value + tail) + after == (before + key + value) + tail + after,
{
    let buf = before + (key + value + tail) + after;
    assert(buf =~= before + key + (value + (tail + after)));
    assert(buf =~= (before + key) + value + (tail + after));
    assert(buf =~= (before + key + value) + tail + after);
}

proof fn lemma_dict_span(before: Seq<u8>, entries: Seq<(Seq<u8>, Node)>, after: Seq<u8>)
    requires
        before.len() + dict_bytes(entries).len() + 1 + after.len() <= usize::MAX,
    ensures
        items_end(before + dict_bytes(entries) + (seq![END] + after), before.len() as int) == Ok::<
            int,
            Seq<char>,
        >((before.len() + dict_bytes(entries).len() + 1) as int),
    decreases entries, 0int,
{
    let buf = before + dict_bytes(entries) + (seq![END] + after);
    if entries.len() == 0 {
        assert(buf[before.len() as int] == END);
    } else {
        let tail = entries.subrange(1, entries.len() as int);
        let key = encoded_bytes(entries[0].0);
        let value = node_bytes(entries[0].1);
        let rest = dict_bytes(tail) + (seq![END] + after);
        lemma_entry_groups(before, key, value, dict_bytes(tail), seq![END] + after);
        lemma_string_span(before, entries[0].0, value + rest);
        lemma_value_span(before + key, entries[0].1, rest);
        let at = before.len() as int;
        assert(items_end(buf, at) == items_end(buf, at + key.len()));
        assert(items_end(buf, at + key.len()) == items_end(buf, at + key.len() + value.len()));
        lemma_dict_span(before + key + value, tail, after);
    }
}

/// The walk always advances and stays inside the buffer: a value has at least one byte and ends
/// no later than the buffer.
pub proof fn law_walk_advances(buf: Seq<u8>, at: int)
    requires
        0 <= at <= buf.len(),
    ensures
        value_end(buf, at) matches Ok(end) ==> at < end <= buf.len(),
        items_end(buf, at) matches Ok(end) ==> at < end <= buf.len(),
        byte_string_at(buf, at) matches Ok((start, end)) ==> at < start <= end <= buf.len(),
    decreases buf.len() - at,
{
    lemma_find_byte(buf, at, COLON);
    lemma_find_byte(buf, at, END);
    if at < buf.len() {
        law_walk_advances(buf, at + 1);
        match value_end(buf, at) {
            Ok(next) => if at < next <= buf.len() {
                law_walk_advances(buf, next);
            },
            Err(_) => {},
        }
    }
}

/// Where a value ends is found exactly, whatever the value is and whatever stands before and
/// after it.
pub proof fn law_value_span_is_exact(before: Seq<u8>, node: Node, after: Seq<u8>)
    requires
        before.len() + node_bytes(node).len() + after.len() <= usize::MAX,
    ensures
        value_end(before + node_bytes(node) + after, before.len() as int) == Ok::<int, Seq<char>>(
            (before.len() + node_bytes(node).len()) as int,
        ),
{
    lemma_value_span(before, node, after);
}

/// The raw `info` value of a torrent is exactly the bytes that were written under its first
/// `info` key, with every key in them, known or not, and whatever the other keys of the torrent
/// are.
pub proof fn law_raw_info_is_exact(entries: Seq<(Seq<u8>, Node)>, at: int, after: Seq<u8>)
    requires
        0 <= at < entries.len(),
        entries[at].0 == info_key(),
        forall|i: int| 0 <= i < at ==> (#[trigger] entries[i]).0 != info_key(),
        node_bytes(Node::Dict(entries)).len() + after.len() <= usize::MAX,
    ensures
        ({
            let buf = node_bytes(Node::Dict(entries)) + after;
            &&& info_span(buf) matches Ok((start, end))
            &&& 0 <= start <= end <= buf.len()
            &&& buf.subrange(start, end) == node_bytes(entries[at].1)
        }),
{
    let buf = node_bytes(Node::Dict(entries)) + after;
    assert(buf =~= seq![DICT] + dict_bytes(entries) + (seq![END] + after));
    lemma_find_info(seq![DICT], entries, at, after);
}

#[verifier::spinoff_prover]
#[verifier::rlimit(30)]
proof fn lemma_find_info(
    before: Seq<u8>,
    entries: Seq<(Seq<u8>, Node)>,
    at: int,
    after: Seq<u8>,
)
    requires
        0 <= at < entries.len(),
        entries[at].0 == info_key(),
        forall|i: int| 0 <= i < at ==> (#[trigger] entries[i]).0 != info_key(),
        before.len() + dict_bytes(entries).len() + 1 + after.len() <= usize::MAX,
    ensures
        ({
            let buf = before + dict_bytes(entries) + (seq![END] + after);
            &&& find_info(buf, before.len() as int) matches Ok((start, end))
            &&& 0 <= start <= end <= buf.len()
            &&& buf.subrange(start, end) == node_bytes(entries[at].1)
        }),
    decreases at,
{
    let buf = before + dict_bytes(entries) + (seq![END] + after);
    let tail = entries.subrange(1, entries.len() as int);
    let key = encoded_bytes(entries[0].0);
    let value = node_bytes(entries[0].1);
    let rest = dict_bytes(tail) + (seq![END] + after);
    lemma_entry_groups(before, key, value, dict_bytes(tail), seq![END] + after);
    lemma_string_span(before, entries[0].0, value + rest);
    lemma_value_span(before + key, entries[0].1, rest);
    if at == 0 {
        let start = (before.len() + key.len()) as int;
        assert(buf.subrange(start, start + value.len()) =~= value);
    } else {
        assert(entries[0].0 != info_key());
        assert forall|i: int| 0 <= i < at - 1 implies (#[trigger] tail[i]).0 != info_key() by {
            assert(entries[i + 1].0 != info_key());
        }
        lemma_find_info(before + key + value, tail, at - 1, after);
    }
}

} // verus!
