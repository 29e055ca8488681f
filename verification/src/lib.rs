//! BitTorrent metadata, tracker and handshake core.
//!
//! The crate decodes bencoded data with exact byte spans, extracts torrent
//! metadata together with its info-hash, builds tracker announce requests,
//! decodes compact peer lists and frames the peer handshake. Every function
//! is pure: callers perform the file and network transfers themselves.

pub mod bencode;
pub mod decimal;
pub mod decode;
pub mod trusted;
pub mod torrent;
pub mod tracker;
pub mod handshake;
pub mod laws;
pub mod encoding;
pub mod report;
