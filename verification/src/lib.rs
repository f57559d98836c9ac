//! Torrentina: the verified core of a lightweight, efficient local BitTorrent client.
//!
//! One module per protocol layer:
//!
//! 1. [`metainfo`]: bencode parsing and `.torrent` type definitions
//! 2. [`tracker`]: tracker communication (HTTP/UDP)
//! 3. [`peer`]: peer wire protocol (handshake and messaging)
//! 4. [`download`]: torrent manager and piece download logic
//! 5. [`disk`]: disk layout and file assembly
//!
//! and [`registry`], the list of torrents that a desktop frontend manages. Everything here is
//! synchronous and free of I/O: sockets, files and clocks belong to the programs around it.
#![allow(unused_imports)]

pub mod bencode;
pub mod bigendian;
pub mod buffer;
pub mod canonical;
pub mod decode;
pub mod digest;
pub mod disk;
pub mod download;
pub mod error;
pub mod keyed;
pub mod keys;
pub mod laws;
pub mod metainfo;
pub mod outline;
pub mod peer;
pub mod registry;
pub mod span;
pub mod text;
pub mod tracker;

pub use disk::{MappedFile, Storage};
pub use download::{
    ControlState, Coordinator, Geometry, PeerStat, PieceTracker, Session, StatsSnapshot,
    SwarmStats, VerifiedPiece, BLOCK_SIZE,
};
pub use error::{Error, Result};
pub use metainfo::{FileEntry, FileLayout, Info, InfoHash, Metainfo};
pub use peer::{Block, BlockInfo, Handshake, Message, PeerId};
pub use tracker::{AnnounceParams, AnnounceResponse, Event};
