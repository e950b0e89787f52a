//! Decoder for BitTorrent metainfo files.
//!
//! The crate decodes bencode, the self-describing length-prefixed encoding
//! that wraps integers, byte strings, lists and dictionaries, and projects
//! the decoded tree into a validated `Torrent` record, including the
//! digest of the raw bytes of the `info` dictionary.

pub mod bencode;
pub mod decode;
pub mod laws;
pub mod outside;
pub mod torrent;
