//! Verified core of a BitTorrent client: the bencode codec, `.torrent`
//! metadata extraction, the info-hash, the piece table, the tracker
//! announce URL and the compact peer list of a tracker reply.

pub mod error;
pub mod value;
pub mod encoding;
pub mod decoding;
mod decoding_lemmas;
pub mod text;
pub mod hashing;
pub mod chunks;
pub mod lookup;
pub mod metainfo;
pub mod tracker;
pub mod unique;

pub use decoding::{decode, decode_all, MAX_DEPTH};
pub use encoding::encode;
pub use error::TorrentError;
pub use hashing::{info_hash, to_hex};
pub use metainfo::{extract, read_torrent, split_pieces, Torrent, TorrentInfo};
pub use text::text_of;
pub use tracker::{
    announce_url_bytes, build_url, parse_peers, parse_response, response_from_value, PeerAddress,
    TrackerResponse,
};
pub use value::BencodeValue;
