//! IP addresses as text.
//!
//! A text is taken by its bytes in UTF-8.

use vstd::prelude::*;
use vstd::utf8::encode_utf8;
use crate::bigendian::{be_value, lemma_be_limits, lemma_be_value_4, lemma_be_value_split};
use crate::span::{all_digits, digits_value, find_byte, is_digit, lemma_find_byte};
use crate::tracker::address::{
    all_group_bytes, find_gap, group_bytes, hex_digit_value, hex_value, ipv4_bytes, ipv6_bytes,
    is_hex_digit, octet, parse_ip, run_bytes, split, Ip,
};

verus! {

/// The parts with a separator between them.
pub open spec fn joined_by(parts: Seq<Seq<u8>>, separator: u8) -> Seq<u8>
    decreases parts.len(),
{
    if parts.len() == 0 {
        Seq::empty()
    } else if parts.len() == 1 {
        parts[0]
    } else {
        parts[0] + seq![separator] + joined_by(parts.skip(1), separator)
    }
}

/// Whether a byte stands nowhere in `text`.
pub open spec fn is_free_of(text: Seq<u8>, byte: u8) -> bool {
    forall|i: int| 0 <= i < text.len() ==> #[trigger] text[i] != byte
}

proof fn lemma_find(text: Seq<u8>, from: int, byte: u8, at: int)
    requires
        0 <= from <= at <= text.len(),
        forall|i: int| from <= i < at ==> #[trigger] text[i] != byte,
        at < text.len() ==> text[at] == byte,
    ensures
        find_byte(text, from, byte) == (if at < text.len() {
            Some(at)
        } else {
            None
        }),
    decreases at - from,
{
    if from < at {
        assert(text[from] != byte);
        lemma_find(text, from + 1, byte, at);
    }
}

proof fn lemma_split_joined(parts: Seq<Seq<u8>>, separator: u8)
    requires
        parts.len() > 0,
        forall|i: int| 0 <= i < parts.len() ==> is_free_of(#[trigger] parts[i], separator),
    ensures
        split(joined_by(parts, separator), separator) == parts,
    decreases parts.len(),
{
    let text = joined_by(parts, separator);
    let first = parts[0];
    assert(is_free_of(first, separator));
    if parts.len() == 1 {
        lemma_find(text, 0, separator, text.len() as int);
        assert(seq![text] =~= parts);
    } else {
        let rest = parts.skip(1);
        assert forall|i: int| 0 <= i < rest.len() implies is_free_of(
            #[trigger] rest[i],
            separator,
        ) by {
            assert(rest[i] == parts[i + 1]);
        }
        lemma_split_joined(rest, separator);
        assert forall|i: int| 0 <= i < first.len() implies #[trigger] text[i] != separator by {
            assert(text[i] == first[i]);
        }
        lemma_find(text, 0, separator, first.len() as int);
        assert(text.take(first.len() as int) =~= first);
        assert(text.skip(first.len() as int + 1) =~= joined_by(rest, separator));
        assert(seq![first] + rest =~= parts);
    }
}

proof fn lemma_joined_split(text: Seq<u8>, separator: u8)
    ensures
        split(text, separator).len() > 0,
        joined_by(split(text, separator), separator) == text,
        forall|i: int|
            0 <= i < split(text, separator).len() ==> is_free_of(
                #[trigger] split(text, separator)[i],
                separator,
            ),
    decreases text.len(),
{
    let parts = split(text, separator);
    lemma_find_byte(text, 0, separator);
    match find_byte(text, 0, separator) {
        Some(at) => {
            let rest = text.skip(at + 1);
            lemma_joined_split(rest, separator);
            lemma_before_found(text, 0, separator);
            assert(parts[0] == text.take(at));
            assert(parts.skip(1) =~= split(rest, separator));
            assert(joined_by(parts, separator) =~= text);
            assert forall|i: int| 0 <= i < parts.len() implies is_free_of(
                #[trigger] parts[i],
                separator,
            ) by {
                if i > 0 {
                    assert(parts[i] == split(rest, separator)[i - 1]);
                }
            }
        },
        None => {
            lemma_before_found(text, 0, separator);
            assert(parts =~= seq![text]);
        },
    }
}

proof fn lemma_before_found(text: Seq<u8>, from: int, byte: u8)
    requires
        0 <= from,
    ensures
        match find_byte(text, from, byte) {
            Some(at) => forall|i: int| from <= i < at ==> #[trigger] text[i] != byte,
            None => forall|i: int| from <= i < text.len() ==> #[trigger] text[i] != byte,
        },
    decreases text.len() - from,
{
    if from < text.len() && text[from] != byte {
        lemma_before_found(text, from + 1, byte);
    }
}

// IPv4.

/// The number that bytes denote as decimal digits.
pub open spec fn decimal_number(digits: Seq<u8>) -> int
    decreases digits.len(),
{
    if digits.len() == 0 {
        0
    } else {
        10 * decimal_number(digits.drop_last()) + (digits.last() - '0' as int)
    }
}

/// Whether a part of an IPv4 address is the number `n`: at most three digits, no zero before the
/// others, and no more than a byte holds.
pub open spec fn is_octet(part: Seq<u8>, n: int) -> bool {
    &&& 1 <= part.len() <= 3
    &&& forall|i: int| 0 <= i < part.len() ==> '0' as int <= #[trigger] part[i] <= '9' as int
    &&& part.len() > 1 ==> part[0] != '0' as int
    &&& decimal_number(part) == n
    &&& n <= 255
}

/// Whether `text` is four such numbers with dots between them.
pub open spec fn quad_parts(text: Seq<u8>, parts: Seq<Seq<u8>>, numbers: Seq<int>) -> bool {
    &&& parts.len() == 4
    &&& numbers.len() == 4
    &&& text == joined_by(parts, 0x2e)
    &&& forall|i: int| 0 <= i < 4 ==> is_octet(#[trigger] parts[i], numbers[i])
}

/// Whether `text` is an IPv4 address with these four numbers.
pub open spec fn is_quad(text: Seq<u8>, numbers: Seq<int>) -> bool {
    exists|parts: Seq<Seq<u8>>| #[trigger] quad_parts(text, parts, numbers)
}

proof fn lemma_decimal_number(digits: Seq<u8>)
    requires
        all_digits(digits),
    ensures
        decimal_number(digits) == digits_value(digits),
    decreases digits.len(),
{
    if digits.len() > 0 {
        assert(is_digit(digits[digits.len() - 1]));
        assert forall|i: int| 0 <= i < digits.drop_last().len() implies is_digit(
            #[trigger] digits.drop_last()[i],
        ) by {
            assert(is_digit(digits[i]));
        }
        lemma_decimal_number(digits.drop_last());
    }
}

proof fn lemma_octet(part: Seq<u8>, n: int)
    ensures
        is_octet(part, n) <==> (octet(part) matches Some(byte) && byte == n),
        is_octet(part, n) ==> is_free_of(part, 0x2e) && 0 <= n,
{
    if all_digits(part) {
        lemma_decimal_number(part);
        assert forall|i: int| 0 <= i < part.len() implies '0' as int <= #[trigger] part[i]
            <= '9' as int by {
            assert(is_digit(part[i]));
        }
    }
    if is_octet(part, n) {
        assert(all_digits(part));
    }
}

proof fn lemma_quad(text: Seq<u8>, numbers: Seq<int>)
    ensures
        is_quad(text, numbers) <==> (ipv4_bytes(text) matches Some(bytes) && numbers.len() == 4
            && forall|i: int| 0 <= i < 4 ==> #[trigger] numbers[i] == bytes[i]),
{
    lemma_joined_split(text, 0x2e);
    let found = split(text, 0x2e);
    if is_quad(text, numbers) {
        let parts = choose|parts: Seq<Seq<u8>>| #[trigger] quad_parts(text, parts, numbers);
        assert forall|i: int| 0 <= i < parts.len() implies is_free_of(
            #[trigger] parts[i],
            0x2e,
        ) by {
            lemma_octet(parts[i], numbers[i]);
        }
        lemma_split_joined(parts, 0x2e);
        assert forall|i: int| 0 <= i < 4 implies octet(#[trigger] parts[i]) is Some
            && octet(parts[i])->0 == numbers[i] by {
            lemma_octet(parts[i], numbers[i]);
        }
        assert(ipv4_bytes(text) is Some);
        let bytes = ipv4_bytes(text)->0;
        assert forall|i: int| 0 <= i < 4 implies #[trigger] numbers[i] == bytes[i] by {
            assert(octet(parts[i])->0 == numbers[i]);
        }
    }
    if ipv4_bytes(text) matches Some(bytes) && numbers.len() == 4 && forall|i: int|
        0 <= i < 4 ==> #[trigger] numbers[i] == bytes[i] {
        let bytes = ipv4_bytes(text)->0;
        assert forall|i: int| 0 <= i < 4 implies is_octet(#[trigger] found[i], numbers[i]) by {
            assert(octet(found[i]) is Some);
            assert(numbers[i] == bytes[i]);
            lemma_octet(found[i], numbers[i]);
        }
        assert(quad_parts(text, found, numbers));
    }
}

/// A text is an IPv4 address just where it is four numbers of a byte with dots between them, and
/// then the first number is the highest byte of the address.
pub proof fn law_ipv4_addresses_are_read(text: &str, ip: Option<Ip>, numbers: Seq<int>)
    requires
        call_ensures(parse_ip, (text,), ip),
    ensures
        is_quad(encode_utf8(text@), numbers) ==> (ip matches Some(Ip::V4(address)) && address
            == numbers[0] * 0x100_0000 + numbers[1] * 0x1_0000 + numbers[2] * 0x100 + numbers[3]),
        ip matches Some(Ip::V4(address)) ==> exists|quad: Seq<int>|
            #[trigger] is_quad(encode_utf8(text@), quad) && address == quad[0] * 0x100_0000
                + quad[1] * 0x1_0000 + quad[2] * 0x100 + quad[3],
{
    let bytes = encode_utf8(text@);
    lemma_quad(bytes, numbers);
    match ipv4_bytes(bytes) {
        Some(four) => {
            lemma_be_value_4(four);
            let quad: Seq<int> = Seq::new(4, |i: int| four[i] as int);
            lemma_quad(bytes, quad);
            assert(is_quad(bytes, quad));
            assert(quad[0] == four[0] && quad[1] == four[1] && quad[2] == four[2] && quad[3]
                == four[3]);
            if is_quad(bytes, numbers) {
                assert(numbers[0] == four[0] && numbers[1] == four[1] && numbers[2] == four[2]
                    && numbers[3] == four[3]);
            }
        },
        None => {},
    }
}

// IPv6.

/// What a hexadecimal digit of either case stands for.
pub open spec fn hex_number_of(byte: u8) -> int {
    if '0' as int <= byte <= '9' as int {
        byte - '0' as int
    } else if 'a' as int <= byte <= 'f' as int {
        byte - 'a' as int + 10
    } else if 'A' as int <= byte <= 'F' as int {
        byte - 'A' as int + 10
    } else {
        -1
    }
}

/// The number that bytes denote as hexadecimal digits.
pub open spec fn hex_number(digits: Seq<u8>) -> int
    decreases digits.len(),
{
    if digits.len() == 0 {
        0
    } else {
        16 * hex_number(digits.drop_last()) + hex_number_of(digits.last())
    }
}

/// Whether a part of an IPv6 address is the number `n`: one to four hexadecimal digits.
pub open spec fn is_group(part: Seq<u8>, n: int) -> bool {
    &&& 1 <= part.len() <= 4
    &&& forall|i: int| 0 <= i < part.len() ==> hex_number_of(#[trigger] part[i]) >= 0
    &&& hex_number(part) == n
}

/// Whether the parts are these words: a group each; where they end the address, an IPv4 address
/// may stand for the last two.
pub open spec fn are_words(parts: Seq<Seq<u8>>, words: Seq<int>, ends: bool) -> bool {
    ||| {
        &&& words.len() == parts.len()
        &&& forall|i: int| 0 <= i < parts.len() ==> is_group(#[trigger] parts[i], words[i])
    }
    ||| {
        &&& ends
        &&& words.len() == parts.len() + 1
        &&& forall|i: int| 0 <= i < parts.len() - 1 ==> is_group(#[trigger] parts[i], words[i])
        &&& exists|quad: Seq<int>|
            {
                &&& #[trigger] is_quad(parts.last(), quad)
                &&& words[words.len() - 2] == quad[0] * 0x100 + quad[1]
                &&& words[words.len() - 1] == quad[2] * 0x100 + quad[3]
            }
    }
}

/// Whether `text` is these words with colons between them.
pub open spec fn is_run(text: Seq<u8>, words: Seq<int>, ends: bool) -> bool {
    ||| text.len() == 0 && words.len() == 0
    ||| exists|parts: Seq<Seq<u8>>|
        parts.len() > 0 && text == #[trigger] joined_by(parts, 0x3a) && are_words(
            parts,
            words,
            ends,
        )
}

/// The number that words of sixteen bits denote, the first one being the highest.
pub open spec fn words_number(words: Seq<int>) -> int
    decreases words.len(),
{
    if words.len() == 0 {
        0
    } else {
        words_number(words.drop_last()) * 0x1_0000 + words.last()
    }
}

/// Whether `text` is an IPv6 address with these eight words: all of them with colons between them,
/// or without some zeros where two colons stand.
pub open spec fn is_ipv6(text: Seq<u8>, words: Seq<int>) -> bool {
    &&& words.len() == 8
    &&& {
        ||| is_run(text, words, true)
        ||| exists|head: Seq<u8>, tail: Seq<u8>, n: int, m: int|
            #![trigger is_run(head, words.take(n), false), is_run(tail, words.skip(m), true)]
            {
                &&& text == head + seq![0x3au8, 0x3au8] + tail
                &&& 0 <= n < m <= 8
                &&& is_run(head, words.take(n), false)
                &&& is_run(tail, words.skip(m), true)
                &&& forall|i: int| n <= i < m ==> #[trigger] words[i] == 0
            }
    }
}

proof fn lemma_hex_number(digits: Seq<u8>)
    requires
        forall|i: int| 0 <= i < digits.len() ==> is_hex_digit(#[trigger] digits[i]),
    ensures
        hex_number(digits) == hex_value(digits),
        digits.len() <= 4 ==> hex_value(digits) < 0x1_0000,
    decreases digits.len(),
{
    reveal_with_fuel(hex_value, 5);
    if digits.len() > 0 {
        let front = digits.drop_last();
        assert(is_hex_digit(digits[digits.len() - 1]));
        assert forall|i: int| 0 <= i < front.len() implies is_hex_digit(#[trigger] front[i]) by {
            assert(is_hex_digit(digits[i]));
        }
        lemma_hex_number(front);
    }
    if digits.len() <= 4 {
        assert forall|i: int| 0 <= i < digits.len() implies hex_digit_value(#[trigger] digits[i])
            < 16 by {
            assert(is_hex_digit(digits[i]));
        }
        lemma_hex_bound(digits);
    }
}

proof fn lemma_hex_bound(digits: Seq<u8>)
    requires
        digits.len() <= 4,
        forall|i: int| 0 <= i < digits.len() ==> hex_digit_value(#[trigger] digits[i]) < 16,
    ensures
        digits.len() == 0 ==> hex_value(digits) < 1,
        digits.len() == 1 ==> hex_value(digits) < 0x10,
        digits.len() == 2 ==> hex_value(digits) < 0x100,
        digits.len() == 3 ==> hex_value(digits) < 0x1000,
        digits.len() == 4 ==> hex_value(digits) < 0x1_0000,
    decreases digits.len(),
{
    if digits.len() > 0 {
        assert(hex_digit_value(digits[digits.len() - 1]) < 16);
        assert forall|i: int| 0 <= i < digits.drop_last().len() implies hex_digit_value(
            #[trigger] digits.drop_last()[i],
        ) < 16 by {
            assert(hex_digit_value(digits[i]) < 16);
        }
        lemma_hex_bound(digits.drop_last());
    }
}

/// The two bytes of a word.
spec fn word_bytes(word: int) -> Seq<u8> {
    seq![(word / 0x100) as u8, (word % 0x100) as u8]
}

/// The bytes of words, one after another.
spec fn words_bytes(words: Seq<int>) -> Seq<u8>
    decreases words.len(),
{
    if words.len() == 0 {
        Seq::empty()
    } else {
        words_bytes(words.drop_last()) + word_bytes(words.last())
    }
}

/// Whether all of them are words.
spec fn fit_words(words: Seq<int>) -> bool {
    forall|i: int| 0 <= i < words.len() ==> 0 <= #[trigger] words[i] < 0x1_0000
}

proof fn lemma_words_bytes(words: Seq<int>)
    requires
        fit_words(words),
    ensures
        words_bytes(words).len() == 2 * words.len(),
        be_value(words_bytes(words)) == words_number(words),
    decreases words.len(),
{
    if words.len() > 0 {
        let front = words.drop_last();
        assert forall|i: int| 0 <= i < front.len() implies 0 <= #[trigger] front[i] < 0x1_0000 by {
            assert(front[i] == words[i]);
        }
        lemma_words_bytes(front);
        let word = words[words.len() - 1];
        assert(0 <= word < 0x1_0000);
        lemma_be_value_split(words_bytes(front), word_bytes(word));
        lemma_be_limits();
        crate::bigendian::lemma_be_value_2(word_bytes(word));
    }
}

proof fn lemma_words_bytes_apart(early: Seq<int>, late: Seq<int>)
    ensures
        words_bytes(early + late) == words_bytes(early) + words_bytes(late),
    decreases late.len(),
{
    if late.len() == 0 {
        assert(early + late =~= early);
        assert(words_bytes(early) + words_bytes(late) =~= words_bytes(early));
    } else {
        lemma_words_bytes_apart(early, late.drop_last());
        assert((early + late).drop_last() =~= early + late.drop_last());
        assert((early + late).last() == late.last());
        assert(words_bytes(early + late) =~= words_bytes(early) + words_bytes(late));
    }
}

proof fn lemma_zero_words(n: nat)
    ensures
        words_bytes(Seq::new(n, |i: int| 0int)) == Seq::new(2 * n, |i: int| 0u8),
    decreases n,
{
    let words = Seq::new(n, |i: int| 0int);
    if n > 0 {
        lemma_zero_words((n - 1) as nat);
        assert(words.drop_last() =~= Seq::new((n - 1) as nat, |i: int| 0int));
        assert(word_bytes(0) =~= seq![0u8, 0u8]);
    }
    assert(words_bytes(words) =~= Seq::new(2 * n, |i: int| 0u8));
}

proof fn lemma_group(part: Seq<u8>, n: int)
    requires
        is_group(part, n),
    ensures
        0 <= n < 0x1_0000,
        group_bytes(part) == Some(word_bytes(n)),
        is_free_of(part, 0x3a),
        is_free_of(part, 0x2e),
        ipv4_bytes(part) is None,
{
    assert forall|i: int| 0 <= i < part.len() implies is_hex_digit(#[trigger] part[i]) && part[i]
        != 0x3a && part[i] != 0x2e by {
        assert(hex_number_of(part[i]) >= 0);
    }
    lemma_hex_number(part);
    assert(group_bytes(part)->0 =~= word_bytes(n));
    lemma_find(part, 0, 0x2e, part.len() as int);
    assert(split(part, 0x2e).len() == 1);
}

proof fn lemma_groups(parts: Seq<Seq<u8>>, words: Seq<int>)
    requires
        words.len() == parts.len(),
        forall|i: int| 0 <= i < parts.len() ==> is_group(#[trigger] parts[i], words[i]),
    ensures
        fit_words(words),
        all_group_bytes(parts) == Some(words_bytes(words)),
    decreases parts.len(),
{
    if parts.len() > 0 {
        let last = parts.len() - 1;
        assert(is_group(parts[last], words[last]));
        lemma_group(parts[last], words[last]);
        assert forall|i: int| 0 <= i < parts.drop_last().len() implies is_group(
            #[trigger] parts.drop_last()[i],
            words.drop_last()[i],
        ) by {
            assert(is_group(parts[i], words[i]));
        }
        lemma_groups(parts.drop_last(), words.drop_last());
        assert forall|i: int| 0 <= i < words.len() implies 0 <= #[trigger] words[i] < 0x1_0000 by {
            if i < last {
                assert(words[i] == words.drop_last()[i]);
            }
        }
    }
}

proof fn lemma_joined_byte(parts: Seq<Seq<u8>>, separator: u8, byte: u8)
    requires
        byte != separator,
        forall|i: int| 0 <= i < parts.len() ==> is_free_of(#[trigger] parts[i], byte),
    ensures
        is_free_of(joined_by(parts, separator), byte),
    decreases parts.len(),
{
    if parts.len() == 1 {
        assert(is_free_of(parts[0], byte));
    } else if parts.len() > 1 {
        let rest = parts.skip(1);
        assert forall|i: int| 0 <= i < rest.len() implies is_free_of(#[trigger] rest[i], byte) by {
            assert(rest[i] == parts[i + 1]);
        }
        lemma_joined_byte(rest, separator, byte);
        assert(is_free_of(parts[0], byte));
        let text = joined_by(parts, separator);
        assert forall|i: int| 0 <= i < text.len() implies #[trigger] text[i] != byte by {
            if i < parts[0].len() {
                assert(text[i] == parts[0][i]);
            } else if i > parts[0].len() {
                assert(text[i] == joined_by(rest, separator)[i - parts[0].len() - 1]);
            }
        }
    }
}

/// Parts that have no separator in them and are not empty leave no two separators side by side,
/// and none at either end.
proof fn lemma_joined_apart(parts: Seq<Seq<u8>>, separator: u8)
    requires
        parts.len() > 0,
        forall|i: int|
            0 <= i < parts.len() ==> (#[trigger] parts[i]).len() > 0 && is_free_of(
                parts[i],
                separator,
            ),
    ensures
        ({
            let text = joined_by(parts, separator);
            &&& text.len() > 0
            &&& text[0] != separator
            &&& text[text.len() - 1] != separator
            &&& forall|i: int|
                0 <= i < text.len() - 1 ==> !(#[trigger] text[i] == separator && text[i + 1]
                    == separator)
        }),
    decreases parts.len(),
{
    let text = joined_by(parts, separator);
    let first = parts[0];
    assert(first.len() > 0 && is_free_of(first, separator));
    if parts.len() > 1 {
        let rest = parts.skip(1);
        assert forall|i: int| 0 <= i < rest.len() implies (#[trigger] rest[i]).len() > 0
            && is_free_of(rest[i], separator) by {
            assert(rest[i] == parts[i + 1]);
        }
        lemma_joined_apart(rest, separator);
        let behind = joined_by(rest, separator);
        let start = first.len() as int + 1;
        assert(text.len() == start + behind.len());
        assert forall|k: int| 0 <= k < behind.len() implies text[start + k]
            == #[trigger] behind[k] by {}
        assert(text[0] == first[0]);
        assert(text[text.len() - 1] == behind[behind.len() - 1]);
        assert forall|i: int| 0 <= i < text.len() - 1 implies !(#[trigger] text[i] == separator
            && text[i + 1] == separator) by {
            if i < first.len() {
                assert(text[i] == first[i]);
            } else if i == first.len() {
                assert(text[i + 1] == behind[0]);
            } else {
                assert(text[i] == behind[i - start]);
                assert(text[i + 1] == behind[i + 1 - start]);
                assert(!(behind[i - start] == separator && behind[i - start + 1] == separator));
            }
        }
    }
}

proof fn lemma_quad_part(part: Seq<u8>, quad: Seq<int>)
    requires
        is_quad(part, quad),
    ensures
        is_free_of(part, 0x3a),
        part.len() > 0,
        ipv4_bytes(part) == Some(
            word_bytes(quad[0] * 0x100 + quad[1]) + word_bytes(quad[2] * 0x100 + quad[3]),
        ),
        0 <= quad[0] * 0x100 + quad[1] < 0x1_0000,
        0 <= quad[2] * 0x100 + quad[3] < 0x1_0000,
{
    lemma_quad(part, quad);
    let bytes = ipv4_bytes(part)->0;
    assert(quad[0] == bytes[0] && quad[1] == bytes[1] && quad[2] == bytes[2] && quad[3]
        == bytes[3]);
    assert(bytes =~= word_bytes(quad[0] * 0x100 + quad[1]) + word_bytes(
        quad[2] * 0x100 + quad[3],
    ));
    let parts = choose|parts: Seq<Seq<u8>>| #[trigger] quad_parts(part, parts, quad);
    assert forall|i: int| 0 <= i < parts.len() implies is_free_of(#[trigger] parts[i], 0x3a) by {
        assert(is_octet(parts[i], quad[i]));
    }
    assert(is_octet(parts[0], quad[0]));
    lemma_joined_byte(parts, 0x2e, 0x3a);
}

/// What the parts of a run are, one by one.
proof fn lemma_word_parts(parts: Seq<Seq<u8>>, words: Seq<int>, ends: bool)
    requires
        parts.len() > 0,
        are_words(parts, words, ends),
    ensures
        forall|i: int|
            0 <= i < parts.len() ==> (#[trigger] parts[i]).len() > 0 && is_free_of(parts[i], 0x3a),
{
    let last = parts.len() - 1;
    assert forall|i: int| 0 <= i < parts.len() implies (#[trigger] parts[i]).len() > 0
        && is_free_of(parts[i], 0x3a) by {
        if i < last || words.len() == parts.len() {
            assert(is_group(parts[i], words[i]));
            lemma_group(parts[i], words[i]);
        } else {
            let quad = choose|quad: Seq<int>|
                {
                    &&& #[trigger] is_quad(parts.last(), quad)
                    &&& words[words.len() - 2] == quad[0] * 0x100 + quad[1]
                    &&& words[words.len() - 1] == quad[2] * 0x100 + quad[3]
                };
            lemma_quad_part(parts.last(), quad);
        }
    }
}

proof fn lemma_run(text: Seq<u8>, words: Seq<int>, ends: bool)
    requires
        is_run(text, words, ends),
    ensures
        fit_words(words),
        run_bytes(text, ends) == Some(words_bytes(words)),
        text.len() > 0 ==> text[0] != 0x3a && text[text.len() - 1] != 0x3a,
        forall|i: int|
            0 <= i < text.len() - 1 ==> !(#[trigger] text[i] == 0x3a && text[i + 1] == 0x3a),
{
    if text.len() == 0 && words.len() == 0 {
        assert(words_bytes(words) =~= Seq::<u8>::empty());
    } else {
        let parts = choose|parts: Seq<Seq<u8>>|
            parts.len() > 0 && text == #[trigger] joined_by(parts, 0x3a) && are_words(
                parts,
                words,
                ends,
            );
        let last = parts.len() - 1;
        lemma_word_parts(parts, words, ends);
        lemma_joined_apart(parts, 0x3a);
        lemma_split_joined(parts, 0x3a);
        if words.len() == parts.len() {
            assert(is_group(parts[last], words[last]));
            lemma_group(parts[last], words[last]);
            lemma_groups(parts, words);
        } else {
            let quad = choose|quad: Seq<int>|
                {
                    &&& #[trigger] is_quad(parts.last(), quad)
                    &&& words[words.len() - 2] == quad[0] * 0x100 + quad[1]
                    &&& words[words.len() - 1] == quad[2] * 0x100 + quad[3]
                };
            lemma_quad_part(parts.last(), quad);
            let front = words.take(last);
            assert forall|i: int| 0 <= i < parts.drop_last().len() implies is_group(
                #[trigger] parts.drop_last()[i],
                front[i],
            ) by {
                assert(is_group(parts[i], words[i]));
            }
            lemma_groups(parts.drop_last(), front);
            let w1 = words[last];
            let w2 = words[last + 1];
            assert(words.drop_last().drop_last() =~= front);
            assert(words.drop_last().last() == w1);
            assert(words_bytes(words.drop_last()) == words_bytes(front) + word_bytes(w1));
            assert(words_bytes(words) =~= words_bytes(front) + (word_bytes(w1) + word_bytes(w2)));
            assert forall|i: int| 0 <= i < words.len() implies 0 <= #[trigger] words[i]
                < 0x1_0000 by {
                if i < last {
                    assert(words[i] == front[i]);
                }
            }
        }
    }
}

proof fn lemma_gap(text: Seq<u8>, from: int, at: int)
    requires
        0 <= from <= at,
        at + 2 <= text.len(),
        text[at] == 0x3a,
        text[at + 1] == 0x3a,
        forall|i: int| from <= i < at ==> !(#[trigger] text[i] == 0x3a && text[i + 1] == 0x3a),
    ensures
        find_gap(text, from) == Some(at),
    decreases at - from,
{
    if from < at {
        assert(!(text[from] == 0x3a && text[from + 1] == 0x3a));
        lemma_gap(text, from + 1, at);
    }
}

proof fn lemma_no_gap(text: Seq<u8>, from: int)
    requires
        0 <= from,
        forall|i: int|
            0 <= i < text.len() - 1 ==> !(#[trigger] text[i] == 0x3a && text[i + 1] == 0x3a),
    ensures
        find_gap(text, from) is None,
    decreases text.len() - from,
{
    if from + 1 < text.len() {
        assert(!(text[from] == 0x3a && text[from + 1] == 0x3a));
        lemma_no_gap(text, from + 1);
    }
}

proof fn lemma_ipv6(text: Seq<u8>, words: Seq<int>)
    requires
        is_ipv6(text, words),
    ensures
        fit_words(words),
        ipv6_bytes(text) == Some(words_bytes(words)),
{
    if is_run(text, words, true) {
        lemma_run(text, words, true);
        lemma_no_gap(text, 0);
        lemma_words_bytes(words);
    } else {
        let (head, tail, n, m) = choose|head: Seq<u8>, tail: Seq<u8>, n: int, m: int|
            #![trigger is_run(head, words.take(n), false), is_run(tail, words.skip(m), true)]
            {
                &&& text == head + seq![0x3au8, 0x3au8] + tail
                &&& 0 <= n < m <= 8
                &&& is_run(head, words.take(n), false)
                &&& is_run(tail, words.skip(m), true)
                &&& forall|i: int| n <= i < m ==> #[trigger] words[i] == 0
            };
        let at = head.len() as int;
        lemma_run(head, words.take(n), false);
        lemma_run(tail, words.skip(m), true);
        assert forall|i: int| 0 <= i < at implies !(#[trigger] text[i] == 0x3a && text[i + 1]
            == 0x3a) by {
            assert(text[i] == head[i]);
            if i + 1 < at {
                assert(text[i + 1] == head[i + 1]);
                assert(!(head[i] == 0x3a && head[i + 1] == 0x3a));
            }
        }
        lemma_gap(text, 0, at);
        assert(text.take(at) =~= head);
        assert(text.skip(at + 2) =~= tail);
        lemma_words_bytes(words.take(n));
        lemma_words_bytes(words.skip(m));
        let zeros = Seq::new((m - n) as nat, |i: int| 0int);
        lemma_zero_words((m - n) as nat);
        lemma_words_bytes_apart(words.take(n), zeros);
        lemma_words_bytes_apart(words.take(n) + zeros, words.skip(m));
        assert(words.take(n) + zeros + words.skip(m) =~= words) by {
            let whole = words.take(n) + zeros + words.skip(m);
            assert forall|i: int| 0 <= i < 8 implies #[trigger] whole[i] == words[i] by {
                if n <= i < m {
                    assert(words[i] == 0);
                }
            }
        }
        assert forall|i: int| 0 <= i < words.len() implies 0 <= #[trigger] words[i] < 0x1_0000 by {
            if i < n {
                assert(words[i] == words.take(n)[i]);
            } else if i >= m {
                assert(words[i] == words.skip(m)[i - m]);
            }
        }
        let gap = Seq::new((2 * (m - n)) as nat, |i: int| 0u8);
        assert(gap =~= Seq::new(
            (16 - words_bytes(words.take(n)).len() - words_bytes(words.skip(m)).len()) as nat,
            |i: int| 0u8,
        ));
    }
}

/// A text is read as an IPv6 address wherever it is one: eight words with colons between them, or
/// without some zeros where two colons stand; the first word is the highest.
pub proof fn law_ipv6_addresses_are_read(text: &str, ip: Option<Ip>, words: Seq<int>)
    requires
        call_ensures(parse_ip, (text,), ip),
        is_ipv6(encode_utf8(text@), words),
    ensures
        ip matches Some(Ip::V6(address)) && address == words_number(words),
{
    let bytes = encode_utf8(text@);
    lemma_ipv6(bytes, words);
    lemma_words_bytes(words);
    lemma_be_limits();
    crate::bigendian::lemma_be_value_bound(words_bytes(words));
    lemma_not_quad(bytes, words);
}

/// What is an IPv6 address is no IPv4 address: there is a colon in it.
proof fn lemma_not_quad(text: Seq<u8>, words: Seq<int>)
    requires
        is_ipv6(text, words),
    ensures
        ipv4_bytes(text) is None,
{
    if ipv4_bytes(text) is Some {
        let four = ipv4_bytes(text)->0;
        let quad: Seq<int> = Seq::new(4, |i: int| four[i] as int);
        lemma_quad(text, quad);
        assert(is_quad(text, quad));
        lemma_quad_part(text, quad);
        if is_run(text, words, true) {
            let parts = choose|parts: Seq<Seq<u8>>|
                parts.len() > 0 && text == #[trigger] joined_by(parts, 0x3a) && are_words(
                    parts,
                    words,
                    true,
                );
            assert(parts.len() >= 7);
            assert(text[parts[0].len() as int] == 0x3a);
        } else {
            let (head, tail, n, m) = choose|head: Seq<u8>, tail: Seq<u8>, n: int, m: int|
                #![trigger is_run(head, words.take(n), false), is_run(tail, words.skip(m), true)]
                {
                    &&& text == head + seq![0x3au8, 0x3au8] + tail
                    &&& 0 <= n < m <= 8
                    &&& is_run(head, words.take(n), false)
                    &&& is_run(tail, words.skip(m), true)
                    &&& forall|i: int| n <= i < m ==> #[trigger] words[i] == 0
                };
            assert(text[head.len() as int] == 0x3a);
        }
    }
}

// Nothing else is an IPv6 address.

proof fn lemma_group_back(part: Seq<u8>)
    requires
        group_bytes(part) is Some,
    ensures
        is_group(part, hex_number(part)),
{
    assert forall|i: int| 0 <= i < part.len() implies hex_number_of(#[trigger] part[i]) >= 0 by {
        assert(is_hex_digit(part[i]));
    }
}

proof fn lemma_groups_back(parts: Seq<Seq<u8>>)
    requires
        all_group_bytes(parts) is Some,
    ensures
        forall|i: int|
            0 <= i < parts.len() ==> is_group(#[trigger] parts[i], hex_number(parts[i])),
    decreases parts.len(),
{
    if parts.len() > 0 {
        lemma_groups_back(parts.drop_last());
        lemma_group_back(parts.last());
        assert forall|i: int| 0 <= i < parts.len() implies is_group(
            #[trigger] parts[i],
            hex_number(parts[i]),
        ) by {
            if i < parts.len() - 1 {
                assert(parts[i] == parts.drop_last()[i]);
            }
        }
    }
}

proof fn lemma_run_back(text: Seq<u8>, ends: bool) -> (words: Seq<int>)
    requires
        run_bytes(text, ends) is Some,
    ensures
        is_run(text, words, ends),
{
    if text.len() == 0 {
        Seq::empty()
    } else {
        let parts = split(text, 0x3a);
        lemma_joined_split(text, 0x3a);
        if ends && ipv4_bytes(parts.last()) is Some {
            let front = parts.drop_last();
            lemma_groups_back(front);
            let four = ipv4_bytes(parts.last())->0;
            let quad: Seq<int> = Seq::new(4, |i: int| four[i] as int);
            lemma_quad(parts.last(), quad);
            let words = Seq::new(front.len(), |i: int| hex_number(front[i])).push(
                quad[0] * 0x100 + quad[1],
            ).push(quad[2] * 0x100 + quad[3]);
            assert forall|i: int| 0 <= i < parts.len() - 1 implies is_group(
                #[trigger] parts[i],
                words[i],
            ) by {
                assert(front[i] == parts[i]);
            }
            assert(is_quad(parts.last(), quad));
            assert(words[words.len() - 2] == quad[0] * 0x100 + quad[1]);
            assert(words[words.len() - 1] == quad[2] * 0x100 + quad[3]);
            assert(are_words(parts, words, ends));
            words
        } else {
            lemma_groups_back(parts);
            let words = Seq::new(parts.len(), |i: int| hex_number(parts[i]));
            assert(are_words(parts, words, ends));
            words
        }
    }
}

proof fn lemma_gap_back(text: Seq<u8>, from: int)
    requires
        0 <= from,
    ensures
        find_gap(text, from) matches Some(at) ==> from <= at && at + 2 <= text.len() && text[at]
            == 0x3a && text[at + 1] == 0x3a,
    decreases text.len() - from,
{
    if from + 1 < text.len() && !(text[from] == 0x3a && text[from + 1] == 0x3a) {
        lemma_gap_back(text, from + 1);
    }
}

/// A text with two colons in it is an address, where there is room for zeros.
proof fn lemma_gapped(head: Seq<u8>, tail: Seq<u8>, early: Seq<int>, late: Seq<int>)
    requires
        is_run(head, early, false),
        is_run(tail, late, true),
        early.len() + late.len() <= 7,
    ensures
        is_ipv6(
            head + seq![0x3au8, 0x3au8] + tail,
            early + Seq::new((8 - early.len() - late.len()) as nat, |i: int| 0int) + late,
        ),
{
    let n = early.len() as int;
    let m = 8 - late.len();
    let words = early + Seq::new((m - n) as nat, |i: int| 0int) + late;
    assert(words.take(n) =~= early);
    assert(words.skip(m) =~= late);
    assert(is_run(head, words.take(n), false) && is_run(tail, words.skip(m), true));
}

proof fn lemma_ipv6_back(text: Seq<u8>) -> (words: Seq<int>)
    requires
        ipv6_bytes(text) is Some,
    ensures
        is_ipv6(text, words),
{
    match find_gap(text, 0) {
        None => {
            let words = lemma_run_back(text, true);
            lemma_run(text, words, true);
            lemma_words_bytes(words);
            words
        },
        Some(at) => {
            lemma_gap_back(text, 0);
            let head = text.take(at);
            let tail = text.skip(at + 2);
            let early = lemma_run_back(head, false);
            let late = lemma_run_back(tail, true);
            assert(early.len() + late.len() <= 7) by {
                lemma_run(head, early, false);
                lemma_run(tail, late, true);
                lemma_words_bytes(early);
                lemma_words_bytes(late);
            }
            lemma_gapped(head, tail, early, late);
            assert(text =~= head + seq![0x3au8, 0x3au8] + tail);
            early + Seq::new((8 - early.len() - late.len()) as nat, |i: int| 0int) + late
        },
    }
}

/// Whatever is read as an IPv6 address is one, and it is read as the number that it denotes.
pub proof fn law_only_ipv6_addresses_are_read(text: &str, ip: Option<Ip>) -> (words: Seq<int>)
    requires
        call_ensures(parse_ip, (text,), ip),
        ip matches Some(Ip::V6(_)),
    ensures
        is_ipv6(encode_utf8(text@), words),
        ip matches Some(Ip::V6(address)) && address == words_number(words),
{
    let words = lemma_ipv6_back(encode_utf8(text@));
    law_ipv6_addresses_are_read(text, ip, words);
    words
}

} // verus!
