//! Rebuilds the content that BitTorrent descriptors describe from files already on
//! disk: decodes descriptors, plans the reads of each piece, finds candidate files,
//! splits the search over candidates into tasks, checks candidate bytes against the
//! pieces' SHA-1 digests and plans the writes into the export tree.

pub mod bencode;
pub mod digest;
pub mod torrent;
pub mod pieces;
pub mod choices;
pub mod filesystem;
pub mod metadata;
pub mod solver;
pub mod executor;
