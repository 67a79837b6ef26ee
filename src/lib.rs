//! Decoding of bencoded data and the typed view of a torrent's metainfo.
//!
//! The generic layer (`value`, `decode`) turns bytes into a tree of
//! integers, byte strings, lists and dictionaries. The typed layer
//! (`metainfo`) reads a torrent's metainfo dictionary out of such a tree.

pub mod value;
pub mod decode;
pub mod text;
pub mod metainfo;
