//! A leech-only peer-to-peer download engine: the bencode codec, torrent
//! metadata, the tracker response, the peer wire format, piece availability
//! bitfields, the block scheduler and the per-connection protocol state.

pub mod bencode;
pub mod bitfield;
pub mod util;
pub mod messages;
pub mod meta_info_file;
pub mod torrent;
pub mod tracker;
pub mod connection;
