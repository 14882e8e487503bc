//! A leeching BitTorrent client's download engine: the geometry of a torrent,
//! the peer wire codec, the per-peer block queue, the ledger of blocks that
//! all sessions share, the state machine of a peer session, and the writer
//! that splits blocks over the output files.

pub mod buffer;
pub mod download;
pub mod errors;
pub mod message_handlers;
pub mod messages;
pub mod pieces;
pub mod queue;
pub mod torrents;
pub mod tracker;
pub mod utils;
