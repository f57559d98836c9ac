//! The BitTorrent peer handshake (the fixed 68-byte opening exchange).
//!
//! Layout:
//! ```text
//! | 1 byte | 19 bytes              | 8 bytes  | 20 bytes  | 20 bytes |
//! | pstrlen| "BitTorrent protocol" | reserved | info_hash | peer_id  |
//! ```

use vstd::prelude::*;
use crate::error::{Error, Fault, Result};
use crate::metainfo::InfoHash;
use crate::peer::PeerId;
use crate::text::{decimal, hex, push_decimal, push_hex};

verus! {

/// Protocol identifier string for BitTorrent v1: `BitTorrent protocol`.
pub const PSTR: [u8; 19] = [
    66,
    105,
    116,
    84,
    111,
    114,
    114,
    101,
    110,
    116,
    32,
    112,
    114,
    111,
    116,
    111,
    99,
    111,
    108,
];

/// Total handshake length: `1 + 19 + 8 + 20 + 20`.
pub const HANDSHAKE_LEN: usize = 68;

/// A parsed (or to-be-sent) handshake.
#[derive(Debug, Clone, Copy, PartialEq, Eq)]
pub struct Handshake {
    /// 8 reserved bytes used for extension negotiation (DHT, fast, extended protocol). We send
    /// zeros and don't yet act on a peer's flags.
    pub reserved: [u8; 8],
    /// The torrent both sides claim to be sharing.
    pub info_hash: InfoHash,
    /// The sender's peer ID.
    pub peer_id: PeerId,
}

/// The handshake on the wire.
pub open spec fn handshake_bytes(reserved: Seq<u8>, info_hash: Seq<u8>, peer_id: Seq<u8>) -> Seq<
    u8,
> {
    seq![19u8] + PSTR@ + reserved + info_hash + peer_id
}

/// The complaint about `bytes` as a handshake, if there is one.
pub open spec fn handshake_complaint(bytes: Seq<u8>) -> Option<Seq<char>> {
    if bytes.len() != HANDSHAKE_LEN {
        Some("handshake must be 68 bytes, got "@ + decimal(bytes.len()))
    } else if bytes[0] != 19 {
        Some("unexpected pstrlen "@ + decimal(bytes[0] as nat))
    } else if bytes.subrange(1, 20) != PSTR@ {
        Some("unexpected protocol string"@)
    } else {
        None
    }
}

/// The complaint about a handshake for another torrent.
pub open spec fn mismatch_text(theirs: Seq<u8>, ours: Seq<u8>) -> Seq<char> {
    "peer info hash "@ + hex(theirs) + " does not match ours "@ + hex(ours)
}

impl Handshake {
    /// The 68-byte wire form.
    pub open spec fn wire(self) -> Seq<u8> {
        handshake_bytes(self.reserved@, self.info_hash@, self.peer_id@)
    }

    /// Build a handshake for the given torrent and our peer ID, with all reserved bits cleared.
    pub fn new(info_hash: InfoHash, peer_id: PeerId) -> (handshake: Self)
        ensures
            handshake.reserved@ == Seq::new(8, |i: int| 0u8),
            handshake.info_hash == info_hash,
            handshake.peer_id == peer_id,
    {
        let handshake = Handshake { reserved: [0u8; 8], info_hash, peer_id };
        assert(handshake.reserved@ =~= Seq::new(8, |i: int| 0u8));
        handshake
    }

    /// Serialize to the 68-byte wire form.
    pub fn to_bytes(&self) -> (bytes: [u8; HANDSHAKE_LEN])
        ensures
            bytes@ == self.wire(),
    {
        let mut bytes: [u8; 68] = [0u8; 68];
        let mut i: usize = 0;
        while i < 68
            invariant
                i <= 68,
                forall|k: int| 0 <= k < i ==> bytes[k] == self.wire()[k],
            decreases 68 - i,
        {
            if i == 0 {
                bytes[i] = 19;
            } else if i < 20 {
                bytes[i] = PSTR[i - 1];
            } else if i < 28 {
                bytes[i] = self.reserved[i - 20];
            } else if i < 48 {
                bytes[i] = self.info_hash.0[i - 28];
            } else {
                bytes[i] = self.peer_id.0[i - 48];
            }
            i += 1;
        }
        assert(bytes@ =~= self.wire());
        bytes
    }

    /// Parse and validate a 68-byte handshake from the wire.
    pub fn from_bytes(buf: &[u8]) -> (result: Result<Self>)
        ensures
            match handshake_complaint(buf@) {
                Some(text) => result matches Err(error) && error@ == Fault::PeerProtocol(text),
                None => {
                    &&& result matches Ok(handshake)
                    &&& handshake.reserved@ == buf@.subrange(20, 28)
                    &&& handshake.info_hash@ == buf@.subrange(28, 48)
                    &&& handshake.peer_id@ == buf@.subrange(48, 68)
                },
            },
    {
        if buf.len() != HANDSHAKE_LEN {
            let mut text = "handshake must be 68 bytes, got ".to_owned();
            push_decimal(&mut text, buf.len() as u64);
            return Err(Error::PeerProtocol(text));
        }
        if buf[0] != 19 {
            let mut text = "unexpected pstrlen ".to_owned();
            push_decimal(&mut text, buf[0] as u64);
            return Err(Error::PeerProtocol(text));
        }
        let mut i: usize = 0;
        while i < 19
            invariant
                i <= 19,
                buf@.len() == 68,
                buf@[0] == 19,
                forall|k: int| 0 <= k < i ==> buf@[k + 1] == PSTR[k],
            decreases 19 - i,
        {
            if buf[i + 1] != PSTR[i] {
                assert(buf@.subrange(1, 20)[i as int] != PSTR@[i as int]);
                return Err(Error::PeerProtocol("unexpected protocol string".to_owned()));
            }
            i += 1;
        }
        assert(buf@.subrange(1, 20) =~= PSTR@);
        let mut reserved: [u8; 8] = [0u8; 8];
        let mut j: usize = 0;
        while j < 8
            invariant
                j <= 8,
                buf@.len() == 68,
                forall|k: int| 0 <= k < j ==> reserved[k] == buf@[k + 20],
            decreases 8 - j,
        {
            reserved[j] = buf[j + 20];
            j += 1;
        }
        assert(reserved@ =~= buf@.subrange(20, 28));
        let info_hash = InfoHash(take_20(buf, 28));
        let peer_id = PeerId(take_20(buf, 48));
        Ok(Handshake { reserved, info_hash, peer_id })
    }

    /// Parse the handshake that a peer answered with, and verify that it claims the torrent
    /// `info_hash`.
    pub fn accept(buf: &[u8], info_hash: InfoHash) -> (result: Result<Self>)
        ensures
            match handshake_complaint(buf@) {
                Some(text) => result matches Err(error) && error@ == Fault::PeerProtocol(text),
                None => if buf@.subrange(28, 48) == info_hash@ {
                    &&& result matches Ok(handshake)
                    &&& handshake.wire() == buf@
                } else {
                    &&& result matches Err(error)
                    &&& error@ == Fault::PeerProtocol(
                        mismatch_text(buf@.subrange(28, 48), info_hash@),
                    )
                },
            },
    {
        match Handshake::from_bytes(buf) {
            Err(error) => Err(error),
            Ok(remote) => {
                if same_20(&remote.info_hash.0, &info_hash.0) {
                    assert(buf@ =~= remote.wire());
                    Ok(remote)
                } else {
                    let mut text = "peer info hash ".to_owned();
                    push_hex(&mut text, remote.info_hash.0.as_slice());
                    text.append(" does not match ours ");
                    push_hex(&mut text, info_hash.0.as_slice());
                    Err(Error::PeerProtocol(text))
                }
            },
        }
    }
}

/// The twenty bytes at `at`.
pub fn take_20(bytes: &[u8], at: usize) -> (out: [u8; 20])
    requires
        at + 20 <= bytes@.len(),
    ensures
        out@ == bytes@.subrange(at as int, at + 20),
{
    let mut out: [u8; 20] = [0u8; 20];
    let mut i: usize = 0;
    while i < 20
        invariant
            i <= 20,
            at + 20 <= bytes.len(),
            forall|k: int| 0 <= k < i ==> out[k] == bytes@[at + k],
        decreases 20 - i,
    {
        out[i] = bytes[at + i];
        i += 1;
    }
    assert(out@ =~= bytes@.subrange(at as int, at + 20));
    out
}

/// Whether two twenty-byte strings are the same.
pub fn same_20(a: &[u8; 20], b: &[u8; 20]) -> (same: bool)
    ensures
        same == (a@ == b@),
{
    let mut i: usize = 0;
    while i < 20
        invariant
            i <= 20,
            forall|k: int| 0 <= k < i ==> a[k] == b[k],
        decreases 20 - i,
    {
        if a[i] != b[i] {
            assert(a@[i as int] != b@[i as int]);
            return false;
        }
        i += 1;
    }
    assert(a@ =~= b@);
    true
}

/// A handshake that was written is accepted and read back field by field.
pub proof fn law_handshake_round_trip(handshake: Handshake)
    ensures
        handshake.wire().len() == HANDSHAKE_LEN,
        handshake_complaint(handshake.wire()) is None,
        handshake.wire().subrange(20, 28) == handshake.reserved@,
        handshake.wire().subrange(28, 48) == handshake.info_hash@,
        handshake.wire().subrange(48, 68) == handshake.peer_id@,
{
    let wire = handshake.wire();
    assert(wire.subrange(1, 20) =~= PSTR@);
    assert(wire.subrange(20, 28) =~= handshake.reserved@);
    assert(wire.subrange(28, 48) =~= handshake.info_hash@);
    assert(wire.subrange(48, 68) =~= handshake.peer_id@);
}

/// Bytes that are accepted are exactly the wire form of the handshake read from them.
pub proof fn law_handshake_bytes_determined(bytes: Seq<u8>)
    requires
        handshake_complaint(bytes) is None,
    ensures
        handshake_bytes(bytes.subrange(20, 28), bytes.subrange(28, 48), bytes.subrange(48, 68))
            == bytes,
{
    assert(bytes[0] == 19);
    assert forall|k: int| 0 <= k < 19 implies bytes[k + 1] == PSTR@[k] by {
        assert(bytes.subrange(1, 20)[k] == PSTR@[k]);
    }
    assert(handshake_bytes(
        bytes.subrange(20, 28),
        bytes.subrange(28, 48),
        bytes.subrange(48, 68),
    ) =~= bytes);
}

} // verus!
