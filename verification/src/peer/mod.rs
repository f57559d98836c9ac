//! Peer wire protocol: identity, handshake, messaging.
//!
//! * [`handshake`]: the fixed 68-byte opening exchange.
//! * [`message`]: the [`Message`] enum and the codec for the length-prefixed message stream
//!   that follows the handshake.

pub mod handshake;
pub mod message;

pub use handshake::Handshake;
pub use message::{Block, BlockInfo, Message, PeerCodec};

use vstd::prelude::*;
use rand::Rng;
use crate::text::{hex_byte, push_hex_byte};

verus! {

/// Length of a BitTorrent peer ID, in bytes. Always 20.
pub const PEER_ID_LEN: usize = 20;

/// Prefix identifying this client, Azureus-style: `-XX####-`, where `XX` is a two-letter client
/// tag and `####` is a version. `TN` = "Torrentina", so this is `-TN0001-`.
pub const CLIENT_PREFIX: [u8; 8] = [45, 84, 78, 48, 48, 48, 49, 45];

/// A 20-byte peer ID. Newtyped so it can't be mixed up with an
/// [`crate::metainfo::InfoHash`] or raw buffers on the wire.
#[derive(Debug, Clone, Copy, PartialEq, Eq, Hash)]
pub struct PeerId(pub [u8; PEER_ID_LEN]);

impl View for PeerId {
    type V = Seq<u8>;

    open spec fn view(&self) -> Seq<u8> {
        self.0@
    }
}

/// Whether a byte is shown as it is: a visible ASCII character or a space.
pub open spec fn is_printable(byte: u8) -> bool {
    0x20 <= byte <= 0x7e
}

/// A byte for the log: itself where it is printable, else `\x` and two hexadecimal digits.
pub open spec fn shown_byte(byte: u8) -> Seq<char> {
    if is_printable(byte) {
        seq![byte as char]
    } else {
        seq!['\\', 'x'] + hex_byte(byte)
    }
}

/// The bytes for the log, one after another.
pub open spec fn shown_bytes(bytes: Seq<u8>) -> Seq<char>
    decreases bytes.len(),
{
    if bytes.len() == 0 {
        Seq::empty()
    } else {
        shown_bytes(bytes.drop_last()) + shown_byte(bytes.last())
    }
}

/// `rand::thread_rng` with `Rng::fill`: twelve random bytes, about which nothing is promised.
#[verifier::external_body]
fn random_suffix() -> [u8; 12] {
    let mut suffix = [0u8; 12];
    rand::thread_rng().fill(&mut suffix);
    suffix
}

impl PeerId {
    /// Generate a fresh peer ID: the client prefix followed by random bytes.
    pub fn generate() -> (id: Self)
        ensures
            id@.take(8) == CLIENT_PREFIX@,
    {
        let suffix = random_suffix();
        let id = PeerId::with_suffix(suffix);
        assert(id@.take(8) =~= CLIENT_PREFIX@);
        id
    }

    /// The client prefix followed by `suffix`.
    pub fn with_suffix(suffix: [u8; 12]) -> (id: Self)
        ensures
            id@ == CLIENT_PREFIX@ + suffix@,
    {
        let mut id: [u8; 20] = [0u8; 20];
        let mut i: usize = 0;
        while i < 20
            invariant
                i <= 20,
                forall|k: int| 0 <= k < i ==> id[k] == (CLIENT_PREFIX@ + suffix@)[k],
            decreases 20 - i,
        {
            if i < 8 {
                id[i] = CLIENT_PREFIX[i];
            } else {
                id[i] = suffix[i - 8];
            }
            i += 1;
        }
        assert(id@ =~= CLIENT_PREFIX@ + suffix@);
        PeerId(id)
    }

    /// Borrow the raw 20 bytes (for tracker params and the handshake).
    pub fn as_bytes(&self) -> (bytes: &[u8; PEER_ID_LEN])
        ensures
            *bytes == self.0,
    {
        &self.0
    }

    /// The ID for the log. Peer IDs are usually mostly ASCII; printable bytes stand verbatim
    /// and the rest are escaped, which keeps logs readable.
    pub fn to_string(&self) -> (text: String)
        ensures
            text@ == shown_bytes(self@),
    {
        let mut text = String::new();
        let mut i: usize = 0;
        assert(text@ =~= shown_bytes(self@.take(0)));
        while i < 20
            invariant
                i <= 20,
                text@ == shown_bytes(self@.take(i as int)),
            decreases 20 - i,
        {
            let byte: u8 = self.0[i];
            if 0x20 <= byte && byte <= 0x7e {
                text.push(byte as char);
            } else {
                text.push('\\');
                text.push('x');
                push_hex_byte(&mut text, byte);
            }
            proof {
                assert(self@.take(i + 1).drop_last() =~= self@.take(i as int));
                assert(text@ =~= shown_bytes(self@.take(i + 1)));
            }
            i += 1;
        }
        assert(self@.take(20) =~= self@);
        text
    }
}

} // verus!
