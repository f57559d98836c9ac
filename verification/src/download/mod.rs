//! Torrent manager and piece download logic.
//!
//! [`Coordinator`] holds the state of a download that all its peers share. For each peer a
//! [`Session`] runs a small state machine:
//!
//! * announce `Interested` and wait to be unchoked,
//! * `reserve` a piece to work on (rarest-first, exclusive per peer),
//! * pipeline up to [`MAX_PIPELINED_REQUESTS`] block requests,
//! * assemble the piece, verify its SHA-1, and emit a [`VerifiedPiece`],
//! * release the piece on bad hash or disconnect so another peer can retry.

pub mod bitfield;
pub mod coordinator;
pub mod ledger;
pub mod piece;
pub mod session;
pub mod state;
pub mod stats;

pub use bitfield::Bitfield;
pub use coordinator::Coordinator;
pub use piece::{Geometry, PieceAssembler, BLOCK_SIZE};
pub use session::{ControlState, Session, VerifiedPiece, MAX_PIPELINED_REQUESTS};
pub use state::PieceTracker;
pub use stats::{PeerStat, StatsSnapshot, SwarmStats};
