//! What holds of the library as its callers see it.
//!
//! Each law speaks of calls: where a call of a function with some arguments may return a result
//! (`call_ensures`), the law says what that result has to do with the arguments, or how the
//! results of several calls belong together.

pub mod address;
pub mod announcing;
pub mod basics;
pub mod coordinator;
pub mod exchange;
pub mod pieces;
pub mod progress;
pub mod reading;
pub mod registry;
pub mod source;
pub mod storage;
pub mod swarm;
pub mod torrent;
pub mod wire;
pub mod writing;

use vstd::prelude::*;
use crate::metainfo::{sum_lengths, total_length_of, FileEntryView, InfoView};
use crate::text::{hex, hex_digit};

verus! {

/// What a lower-case hexadecimal digit stands for; `None` for any other character.
pub open spec fn hex_digit_read(digit: char) -> Option<int> {
    if '0' <= digit <= '9' {
        Some(digit as int - '0' as int)
    } else if 'a' <= digit <= 'f' {
        Some(digit as int - 'a' as int + 10)
    } else {
        None
    }
}

/// Whether `text` writes `bytes` in lower-case hexadecimal, two digits each, the high one first.
pub open spec fn reads_as_hex(text: Seq<char>, bytes: Seq<u8>) -> bool {
    &&& text.len() == 2 * bytes.len()
    &&& forall|i: int|
        0 <= i < bytes.len() ==> {
            &&& hex_digit_read(text[2 * i]) == Some(#[trigger] bytes[i] as int / 16)
            &&& hex_digit_read(text[2 * i + 1]) == Some(bytes[i] as int % 16)
        }
}

pub(crate) proof fn lemma_hex(bytes: Seq<u8>)
    ensures
        reads_as_hex(hex(bytes), bytes),
    decreases bytes.len(),
{
    if bytes.len() > 0 {
        let front = bytes.drop_last();
        lemma_hex(front);
        let text = hex(bytes);
        assert forall|i: int| 0 <= i < bytes.len() implies {
            &&& hex_digit_read(text[2 * i]) == Some(#[trigger] bytes[i] as int / 16)
            &&& hex_digit_read(text[2 * i + 1]) == Some(bytes[i] as int % 16)
        } by {
            if i < front.len() {
                assert(front[i] == bytes[i]);
                assert(text[2 * i] == hex(front)[2 * i]);
                assert(text[2 * i + 1] == hex(front)[2 * i + 1]);
            } else {
                assert(text[2 * i] == hex_digit((bytes[i] / 16) as nat));
                assert(text[2 * i + 1] == hex_digit((bytes[i] % 16) as nat));
            }
        }
    }
}

/// The bytes of the first `n` files, counted by their lengths.
pub open spec fn bytes_before(files: Seq<FileEntryView>, n: int) -> int
    decreases n,
{
    if n <= 0 {
        0
    } else {
        bytes_before(files, n - 1) + files[n - 1].length
    }
}

/// The size of a torrent's content: that of its one file, or of all the files in its list.
pub open spec fn total_of(info: InfoView) -> int {
    match info.files {
        Some(files) => bytes_before(files, files.len() as int),
        None => match info.length {
            Some(length) => length as int,
            None => 0,
        },
    }
}

proof fn lemma_bytes_before(files: Seq<FileEntryView>, n: int)
    requires
        0 <= n <= files.len(),
    ensures
        bytes_before(files, n) == sum_lengths(files.take(n)),
    decreases n,
{
    if n > 0 {
        lemma_bytes_before(files, n - 1);
        assert(files.take(n).drop_last() =~= files.take(n - 1));
    }
}

pub(crate) proof fn lemma_total(info: InfoView)
    ensures
        total_length_of(info) matches Ok(total) ==> total == total_of(info),
{
    match info.files {
        Some(files) => {
            lemma_bytes_before(files, files.len() as int);
            assert(files.take(files.len() as int) =~= files);
        },
        None => {},
    }
}

} // verus!
