//! HTTP(S) tracker transport.
//!
//! The request is a plain GET whose query string carries the announce parameters. The two binary
//! fields, `info_hash` and `peer_id`, must be percent-encoded byte by byte; ordinary form encoders
//! mishandle non-UTF-8 bytes, so the query string is built by hand.

use vstd::prelude::*;
use crate::metainfo::holds_char;
use crate::text::{decimal, push_decimal};
use crate::tracker::{AnnounceParams, Event};

verus! {

/// The URI "unreserved" set (RFC 3986): `A-Z a-z 0-9 - . _ ~`. Every other byte, including most
/// bytes of a binary hash, is percent-encoded.
pub open spec fn is_unreserved(byte: u8) -> bool {
    ||| 0x41 <= byte <= 0x5a
    ||| 0x61 <= byte <= 0x7a
    ||| 0x30 <= byte <= 0x39
    ||| byte == 0x2d
    ||| byte == 0x2e
    ||| byte == 0x5f
    ||| byte == 0x7e
}

/// The upper-case hexadecimal digit of `nibble`.
pub open spec fn upper_hex_digit(nibble: nat) -> char {
    if nibble < 10 {
        (48 + nibble) as char
    } else {
        (55 + nibble) as char
    }
}

/// A percent sign and two upper-case hexadecimal digits.
pub open spec fn percent_byte(byte: u8) -> Seq<char> {
    seq!['%', upper_hex_digit((byte / 16) as nat), upper_hex_digit((byte % 16) as nat)]
}

/// A byte in a query: itself where it is unreserved, else percent-encoded.
pub open spec fn query_byte(byte: u8) -> Seq<char> {
    if is_unreserved(byte) {
        seq![byte as char]
    } else {
        percent_byte(byte)
    }
}

/// Bytes in a query.
pub open spec fn percent_text(bytes: Seq<u8>) -> Seq<char>
    decreases bytes.len(),
{
    if bytes.len() == 0 {
        Seq::empty()
    } else {
        query_byte(bytes[0]) + percent_text(bytes.skip(1))
    }
}

/// `percent_encoding::percent_encode_byte`: a percent sign and the two upper-case hexadecimal
/// digits of the byte, whatever the byte is.
pub assume_specification[ percent_encoding::percent_encode_byte ](byte: u8) -> (text: &'static str)
    ensures
        text@ == percent_byte(byte),
;

/// Percent-encode raw bytes per the tracker convention.
pub fn encode(bytes: &[u8]) -> (text: String)
    ensures
        text@ == percent_text(bytes@),
{
    let mut text = String::new();
    let mut i: usize = 0;
    assert(bytes@.skip(0) =~= bytes@);
    assert(text@ + percent_text(bytes@) =~= percent_text(bytes@));
    while i < bytes.len()
        invariant
            i <= bytes@.len(),
            text@ + percent_text(bytes@.skip(i as int)) == percent_text(bytes@),
        decreases bytes@.len() - i,
    {
        let byte: u8 = bytes[i];
        let ghost before = text@;
        if (0x41 <= byte && byte <= 0x5a) || (0x61 <= byte && byte <= 0x7a) || (0x30 <= byte
            && byte <= 0x39) || byte == 0x2d || byte == 0x2e || byte == 0x5f || byte == 0x7e {
            text.push(byte as char);
        } else {
            text.append(percent_encoding::percent_encode_byte(byte));
        }
        proof {
            let rest = bytes@.skip(i as int);
            assert(rest[0] == byte);
            assert(rest.skip(1) =~= bytes@.skip(i + 1));
            assert(text@ =~= before + query_byte(byte));
            assert(text@ + percent_text(bytes@.skip(i + 1)) =~= before + (query_byte(byte)
                + percent_text(bytes@.skip(i + 1))));
        }
        i += 1;
    }
    assert(text@ + percent_text(bytes@.skip(i as int)) =~= text@);
    text
}

/// The announce parameters as a query.
pub open spec fn query_text(params: AnnounceParams) -> Seq<char> {
    "info_hash="@ + percent_text(params.info_hash@) + "&peer_id="@ + percent_text(params.peer_id@)
        + "&port="@ + decimal(params.port as nat) + "&uploaded="@ + decimal(params.uploaded as nat)
        + "&downloaded="@ + decimal(params.downloaded as nat) + "&left="@ + decimal(
        params.left as nat,
    ) + "&compact="@ + decimal(
        if params.compact {
            1
        } else {
            0
        },
    ) + event_text(params.event) + numwant_text(params.numwant)
}

/// The event parameter, left out for a routine announce.
pub open spec fn event_text(event: Event) -> Seq<char> {
    if event == Event::Routine {
        Seq::empty()
    } else {
        "&event="@ + event.http_text()
    }
}

/// The parameter for the number of peers wanted, left out where the tracker may decide.
pub open spec fn numwant_text(numwant: Option<u32>) -> Seq<char> {
    match numwant {
        Some(n) => "&numwant="@ + decimal(n as nat),
        None => Seq::empty(),
    }
}

/// The announce URL: the query goes behind a `?`, or behind a `&` where the URL has a `?` already.
pub open spec fn announce_url(base: Seq<char>, params: AnnounceParams) -> Seq<char> {
    base + (if base.contains('?') {
        seq!['&']
    } else {
        seq!['?']
    }) + query_text(params)
}

/// Build the full announce URL, appending our query to any the tracker URL already carries (e.g.
/// a passkey).
pub fn build_url(base: &str, params: &AnnounceParams) -> (url: String)
    ensures
        url@ == announce_url(base@, *params),
{
    let mut url: String = base.to_owned();
    if holds_char(base, '?') {
        url.push('&');
    } else {
        url.push('?');
    }
    let ghost start = url@;
    push_query(&mut url, params);
    assert(start =~= base@ + (if base@.contains('?') {
        seq!['&']
    } else {
        seq!['?']
    }));
    url
}

fn push_query(url: &mut String, params: &AnnounceParams)
    ensures
        final(url)@ == old(url)@ + query_text(*params),
{
    let mut q: String = "info_hash=".to_owned();
    q.append(encode(params.info_hash.0.as_slice()).as_str());
    q.append("&peer_id=");
    q.append(encode(params.peer_id.0.as_slice()).as_str());
    q.append("&port=");
    push_decimal(&mut q, params.port as u64);
    q.append("&uploaded=");
    push_decimal(&mut q, params.uploaded);
    q.append("&downloaded=");
    push_decimal(&mut q, params.downloaded);
    q.append("&left=");
    push_decimal(&mut q, params.left);
    q.append("&compact=");
    let compact: u64 = if params.compact {
        1
    } else {
        0
    };
    push_decimal(&mut q, compact);
    let ghost before_event = q@;
    match params.event {
        Event::Routine => {
            assert(q@ =~= before_event + event_text(params.event));
        },
        event => {
            q.append("&event=");
            q.append(event.as_http_str());
            assert(q@ =~= before_event + event_text(params.event));
        },
    }
    let ghost before_numwant = q@;
    match params.numwant {
        Some(n) => {
            q.append("&numwant=");
            push_decimal(&mut q, n as u64);
            assert(q@ =~= before_numwant + numwant_text(params.numwant));
        },
        None => {
            assert(q@ =~= before_numwant + numwant_text(params.numwant));
        },
    }
    url.append(q.as_str());
}

/// The value of a hexadecimal digit.
pub open spec fn upper_hex_value(digit: char) -> int {
    if '0' <= digit <= '9' {
        digit as int - 48
    } else {
        digit as int - 55
    }
}

/// What a query text stands for: a percent sign and two digits for one byte, any other character
/// for the byte of its code.
pub open spec fn percent_decoded(text: Seq<char>) -> Seq<u8>
    decreases text.len(),
{
    if text.len() == 0 {
        Seq::empty()
    } else if text[0] == '%' && text.len() >= 3 {
        seq![(upper_hex_value(text[1]) * 16 + upper_hex_value(text[2])) as u8] + percent_decoded(
            text.skip(3),
        )
    } else {
        seq![text[0] as u8] + percent_decoded(text.skip(1))
    }
}

/// Percent-encoding loses nothing: decoding gives the bytes back, so two different hashes are
/// never announced alike.
pub proof fn law_percent_encoding_is_faithful(bytes: Seq<u8>)
    ensures
        percent_decoded(percent_text(bytes)) == bytes,
    decreases bytes.len(),
{
    if bytes.len() > 0 {
        let first = bytes[0];
        let rest = percent_text(bytes.skip(1));
        let text = percent_text(bytes);
        law_percent_encoding_is_faithful(bytes.skip(1));
        if is_unreserved(first) {
            assert(text[0] == first as char);
            assert(text.skip(1) =~= rest);
        } else {
            assert(text.skip(3) =~= rest);
            assert(text[1] == upper_hex_digit((first / 16) as nat));
            assert(text[2] == upper_hex_digit((first % 16) as nat));
            assert(upper_hex_value(text[1]) == first / 16);
            assert(upper_hex_value(text[2]) == first % 16);
            assert((first / 16) * 16 + first % 16 == first);
        }
        assert(percent_decoded(text) =~= seq![first] + bytes.skip(1));
        assert(seq![first] + bytes.skip(1) =~= bytes);
    }
}

/// Only unreserved characters, percent signs and upper-case hexadecimal digits come out.
pub proof fn law_percent_encoding_is_clean(bytes: Seq<u8>)
    ensures
        forall|i: int|
            0 <= i < percent_text(bytes).len() ==> {
                let ch = #[trigger] percent_text(bytes)[i];
                ch == '%' || (ch as u32 <= 0x7f && is_unreserved(ch as u8))
            },
    decreases bytes.len(),
{
    if bytes.len() > 0 {
        let first = query_byte(bytes[0]);
        let rest = percent_text(bytes.skip(1));
        law_percent_encoding_is_clean(bytes.skip(1));
        let text = percent_text(bytes);
        assert forall|i: int| 0 <= i < text.len() implies {
            let ch = #[trigger] text[i];
            ch == '%' || (ch as u32 <= 0x7f && is_unreserved(ch as u8))
        } by {
            if i >= first.len() {
                assert(text[i] == rest[i - first.len()]);
            } else {
                assert(text[i] == first[i]);
            }
        }
    }
}

} // verus!
