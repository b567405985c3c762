//! A read-only virtual filesystem over a paired archive: an index file
//! describing the directory tree and per-file metadata, and a data blob
//! holding raw or compressed payloads.
//!
//! The index is decoded once into a tree of directories and files; paths are
//! resolved against that tree, and a file's logical bytes are produced on
//! demand, decompressing the stored range when the entry is compressed.

pub mod decoder;
pub mod error;
pub mod fetch;
pub mod fs;
pub mod info;
pub mod listing;
pub mod path;
pub mod tree;
